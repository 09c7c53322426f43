use vstd::prelude::*;

use crate::text::{
    chars_of, clean_line, contains_ignore_case, first_index_ignore_case, content_lines, content_lines_of, eq_ignore_ascii_case, insert_sorted,
    lemma_split_fold_more_lines, lemma_split_fold_one_line, lines_text, lower_seq, position_of, push_str,
    split_fold, trim_end_seq, trim_start_seq, remove_sorted, strictly_sorted, to_uppercase, trim, trim_seq,
    unicode_upper, views, without_first_char,
};

verus! {

/// How many collections are built in and cannot be deleted.
pub const DEFAULT_COLLECTION_COUNT: usize = 1;

/// The name of the built-in collection.
pub open spec fn default_collection_name() -> Seq<char> {
    "Favorites"@
}

/// A named group of title ids.
pub struct Collection {
    pub name: String,
    /// Member title ids, kept in ascending order without repeats so that
    /// membership is a set and the stored file is written in a fixed order.
    pub title_ids: Vec<String>,
}

/// The user's collections, in display order.
pub struct Collections {
    pub items: Vec<Collection>,
}

impl Collection {
    pub open spec fn wf(&self) -> bool {
        strictly_sorted(views(self.title_ids@))
    }

    /// The member title ids.
    pub open spec fn members(&self) -> Seq<Seq<char>> {
        views(self.title_ids@)
    }
}

/// The collection names, in order.
pub open spec fn collection_names(items: Seq<Collection>) -> Seq<Seq<char>> {
    items.map_values(|c: Collection| c.name@)
}

/// Whether a collection name is the built-in favourites collection, in
/// either of the spellings it has been stored under (ASCII case ignored).
pub open spec fn is_favorites_name(name: Seq<char>) -> bool {
    lower_seq(name) == lower_seq("Favorites"@) || lower_seq(name) == lower_seq("Favoritos"@)
}

/// A parsed collection: its name and the set of its title ids.
pub open spec fn parsed_collection(name: Seq<char>) -> (Seq<char>, Set<Seq<char>>) {
    (name, Set::empty())
}

/// Reading the stored file's lines in order: a line starting with `#` opens
/// a collection named by the rest of the line; any other line adds a title
/// id to the last collection opened (and is ignored before the first one).
pub open spec fn parse_fold(lines: Seq<Seq<char>>) -> Seq<(Seq<char>, Set<Seq<char>>)>
    decreases lines.len(),
{
    if lines.len() == 0 {
        Seq::empty()
    } else {
        let acc = parse_fold(lines.drop_last());
        let l = lines.last();
        if l.len() > 0 && l[0] == '#' {
            acc.push(parsed_collection(l.drop_first()))
        } else if acc.len() > 0 {
            acc.update(acc.len() - 1, (acc.last().0, acc.last().1.insert(l)))
        } else {
            acc
        }
    }
}

/// The names of the collections that hold `id`, in display order.
pub open spec fn membership_names(items: Seq<Collection>, id: Seq<char>) -> Seq<Seq<char>>
    decreases items.len(),
{
    if items.len() == 0 {
        Seq::empty()
    } else {
        let rest = membership_names(items.drop_last(), id);
        if items.last().members().contains(id) {
            rest.push(items.last().name@)
        } else {
            rest
        }
    }
}

/// The stored text of collections: for each, a `#name` line followed by its
/// title ids in ascending order.
pub open spec fn collections_text(items: Seq<Collection>) -> Seq<char>
    decreases items.len(),
{
    if items.len() == 0 {
        Seq::empty()
    } else {
        collections_text(items.drop_last()) + seq!['#'] + items.last().name@ + seq!['\n']
            + lines_text(items.last().members())
    }
}

/// `items` holds exactly the parsed collections `p`, in order.
pub open spec fn matches_parsed(items: Seq<Collection>, p: Seq<(Seq<char>, Set<Seq<char>>)>) -> bool {
    &&& items.len() == p.len()
    &&& forall|i: int| 0 <= i < items.len() ==> (#[trigger] items[i]).name@ == p[i].0
    &&& forall|i: int, k: Seq<char>| 0 <= i < items.len() ==> (#[trigger] items[i].members().contains(k)
        == p[i].1.contains(k))
}

impl Collections {
    pub open spec fn wf(&self) -> bool {
        forall|i: int| 0 <= i < self.items@.len() ==> (#[trigger] self.items@[i]).wf()
    }

    /// `self` is `old` with only the collection at `index` changed, keeping its name.
    pub open spec fn changed_only_at(&self, old: &Collections, index: int) -> bool {
        &&& self.items@.len() == old.items@.len()
        &&& 0 <= index < old.items@.len()
        &&& forall|j: int| 0 <= j < old.items@.len() && j != index ==> self.items@[j] == old.items@[j]
        &&& self.items@[index].name == old.items@[index].name
    }

    /// Only the built-in collection, empty.
    pub fn with_defaults() -> (c: Self)
        ensures
            c.wf(),
            c.items@.len() == DEFAULT_COLLECTION_COUNT,
            c.items@[0].name@ == default_collection_name(),
            c.items@[0].members() == Seq::<Seq<char>>::empty(),
    {
        let mut items: Vec<Collection> = Vec::new();
        items.push(Collection { name: "Favorites".to_owned(), title_ids: Vec::new() });
        proof {
            assert(views(items@[0].title_ids@) =~= Seq::<Seq<char>>::empty());
        }
        Collections { items }
    }

    /// Reads collections from their stored text; when it holds none, the
    /// built-in collection alone.
    pub fn from_text(text: &str) -> (c: Self)
        ensures
            c.wf(),
            parse_fold(content_lines(text@)).len() > 0 ==> matches_parsed(
                c.items@,
                parse_fold(content_lines(text@)),
            ),
            parse_fold(content_lines(text@)).len() == 0 ==> {
                &&& c.items@.len() == DEFAULT_COLLECTION_COUNT
                &&& c.items@[0].name@ == default_collection_name()
                &&& c.items@[0].members() == Seq::<Seq<char>>::empty()
            },
    {
        let lines = content_lines_of(text);
        let ghost ls = views(lines@);
        let mut items: Vec<Collection> = Vec::new();
        let mut i: usize = 0;
        while i < lines.len()
            invariant
                ls == views(lines@),
                ls == content_lines(text@),
                i <= lines@.len(),
                forall|j: int| 0 <= j < items@.len() ==> (#[trigger] items@[j]).wf(),
                matches_parsed(items@, parse_fold(ls.take(i as int))),
            decreases lines@.len() - i,
        {
            let line = &lines[i];
            let cs = chars_of(line.as_str());
            proof {
                assert(ls.take(i as int + 1).drop_last() =~= ls.take(i as int));
                assert(ls.take(i as int + 1).last() == line@);
            }
            let ghost p0 = parse_fold(ls.take(i as int));
            if cs.len() > 0 && cs[0] == '#' {
                let name = without_first_char(line.as_str());
                let ghost items0 = items@;
                items.push(Collection { name, title_ids: Vec::new() });
                proof {
                    let p1 = p0.push(parsed_collection(line@.drop_first()));
                    assert(views(items@[items@.len() - 1].title_ids@) =~= Seq::<Seq<char>>::empty());
                    assert forall|j: int, k: Seq<char>| 0 <= j < items@.len() implies (#[trigger] items@[j].members().contains(k)
                        == p1[j].1.contains(k)) by {
                        if j < items0.len() {
                            assert(items@[j] == items0[j]);
                        }
                    }
                }
            } else if items.len() > 0 {
                let mut last = items.pop().unwrap();
                let ghost last0 = last;
                let id = line.clone();
                insert_sorted(&mut last.title_ids, id);
                let ghost items0 = items@;
                items.push(last);
                proof {
                    let p1 = p0.update(p0.len() - 1, (p0.last().0, p0.last().1.insert(line@)));
                    assert forall|j: int| 0 <= j < items@.len() implies (#[trigger] items@[j]).name@ == p1[j].0 by {
                        if j < items0.len() {
                            assert(items@[j] == items0[j]);
                        }
                    }
                    assert forall|j: int, k: Seq<char>| 0 <= j < items@.len() implies (#[trigger] items@[j].members().contains(k)
                        == p1[j].1.contains(k)) by {
                        if j < items0.len() {
                            assert(items@[j] == items0[j]);
                        } else {
                            assert(last0.members().contains(k) == p0[j].1.contains(k));
                        }
                    }
                }
            }
            i = i + 1;
        }
        proof {
            assert(ls.take(i as int) =~= ls);
        }
        if items.len() == 0 {
            return Collections::with_defaults();
        }
        Collections { items }
    }

    /// The stored text of the collections.
    pub fn to_text(&self) -> (t: String)
        ensures
            t@ == collections_text(self.items@),
    {
        let mut t = String::new();
        let mut i: usize = 0;
        while i < self.items.len()
            invariant
                i <= self.items@.len(),
                t@ == collections_text(self.items@.take(i as int)),
            decreases self.items@.len() - i,
        {
            let c = &self.items[i];
            proof {
                assert(self.items@.take(i as int + 1).drop_last() =~= self.items@.take(i as int));
            }
            let ghost t0 = t@;
            t.push('#');
            push_str(&mut t, c.name.as_str());
            t.push('\n');
            let ghost t1 = t@;
            let mut j: usize = 0;
            while j < c.title_ids.len()
                invariant
                    j <= c.title_ids@.len(),
                    t@ == t1 + lines_text(c.members().take(j as int)),
                decreases c.title_ids@.len() - j,
            {
                proof {
                    assert(c.members().take(j as int + 1).drop_last() =~= c.members().take(j as int));
                }
                push_str(&mut t, c.title_ids[j].as_str());
                t.push('\n');
                proof {
                    assert(t@ =~= t1 + lines_text(c.members().take(j as int + 1)));
                }
                j = j + 1;
            }
            proof {
                assert(c.members().take(j as int) =~= c.members());
                assert(t@ =~= collections_text(self.items@.take(i as int + 1)));
            }
            i = i + 1;
        }
        proof {
            assert(self.items@.take(i as int) =~= self.items@);
        }
        t
    }

    /// Whether the collection at `index` holds `title_id` (false when there
    /// is no such collection).
    pub fn contains(&self, index: usize, title_id: &str) -> (b: bool)
        ensures
            b == (index < self.items@.len() && self.items@[index as int].members().contains(title_id@)),
    {
        if index >= self.items.len() {
            return false;
        }
        position_of(&self.items[index].title_ids, title_id).is_some()
    }

    /// Adds `title_id` to the collection at `index`, or takes it out if it is
    /// there. Returns whether the title is in the collection afterwards
    /// (false, with nothing changed, when there is no such collection).
    pub fn toggle(&mut self, index: usize, title_id: &str) -> (now_inside: bool)
        requires
            old(self).wf(),
        ensures
            final(self).wf(),
            index >= old(self).items@.len() ==> !now_inside && final(self).items@ == old(self).items@,
            index < old(self).items@.len() ==> {
                &&& final(self).changed_only_at(old(self), index as int)
                &&& now_inside == !old(self).items@[index as int].members().contains(title_id@)
                &&& forall|k: Seq<char>| #[trigger] final(self).items@[index as int].members().contains(k)
                    == if k == title_id@ {
                    now_inside
                } else {
                    old(self).items@[index as int].members().contains(k)
                }
            },
    {
        if index >= self.items.len() {
            return false;
        }
        let ghost items0 = self.items@;
        let mut c = self.items.remove(index);
        let now_inside = if remove_sorted(&mut c.title_ids, title_id) {
            false
        } else {
            insert_sorted(&mut c.title_ids, title_id.to_owned());
            true
        };
        self.items.insert(index, c);
        proof {
            assert forall|j: int| 0 <= j < self.items@.len() implies (#[trigger] self.items@[j]).wf() by {
                if j < index {
                    assert(self.items@[j] == items0[j]);
                } else if j > index {
                    assert(self.items@[j] == items0[j]);
                }
            }
        }
        now_inside
    }

    /// Takes `title_id` out of the collection at `index`; returns whether it
    /// was there.
    pub fn remove(&mut self, index: usize, title_id: &str) -> (removed: bool)
        requires
            old(self).wf(),
        ensures
            final(self).wf(),
            removed == (index < old(self).items@.len() && old(self).items@[index as int].members().contains(
                title_id@,
            )),
            !removed ==> final(self).items@ == old(self).items@,
            removed ==> {
                &&& final(self).changed_only_at(old(self), index as int)
                &&& forall|k: Seq<char>| #[trigger] final(self).items@[index as int].members().contains(k)
                    == (old(self).items@[index as int].members().contains(k) && k != title_id@)
            },
    {
        if index >= self.items.len() {
            return false;
        }
        if position_of(&self.items[index].title_ids, title_id).is_none() {
            return false;
        }
        let ghost items0 = self.items@;
        let mut c = self.items.remove(index);
        remove_sorted(&mut c.title_ids, title_id);
        self.items.insert(index, c);
        proof {
            assert forall|j: int| 0 <= j < self.items@.len() implies (#[trigger] self.items@[j]).wf() by {
                if j != index {
                    assert(self.items@[j] == items0[j]);
                }
            }
        }
        true
    }

    /// Adds an empty collection named by the trimmed, upper-cased `name`,
    /// unless that is blank or an existing name equals it ignoring ASCII
    /// case. Returns whether it was added.
    pub fn create(&mut self, name: &str) -> (created: bool)
        requires
            old(self).wf(),
        ensures
            final(self).wf(),
            created == (unicode_upper(trim_seq(name@)).len() > 0 && !(exists|i: int|
                0 <= i < old(self).items@.len() && lower_seq((#[trigger] old(self).items@[i]).name@) == lower_seq(
                    unicode_upper(trim_seq(name@)),
                ))),
            !created ==> final(self).items@ == old(self).items@,
            created ==> {
                &&& final(self).items@.len() == old(self).items@.len() + 1
                &&& final(self).items@.drop_last() == old(self).items@
                &&& final(self).items@.last().name@ == unicode_upper(trim_seq(name@))
                &&& final(self).items@.last().members() == Seq::<Seq<char>>::empty()
            },
    {
        let trimmed = trim(name);
        let upper = to_uppercase(trimmed.as_str());
        if upper.as_str().is_empty() {
            return false;
        }
        let mut i: usize = 0;
        while i < self.items.len()
            invariant
                i <= self.items@.len(),
                upper@ == unicode_upper(trim_seq(name@)),
                self.wf(),
                self.items@ == old(self).items@,
                forall|j: int| 0 <= j < i ==> lower_seq((#[trigger] self.items@[j]).name@) != lower_seq(upper@),
            decreases self.items@.len() - i,
        {
            if eq_ignore_ascii_case(self.items[i].name.as_str(), upper.as_str()) {
                proof {
                    assert(lower_seq(self.items@[i as int].name@) == lower_seq(upper@));
                }
                return false;
            }
            i = i + 1;
        }
        let ghost items0 = self.items@;
        self.items.push(Collection { name: upper, title_ids: Vec::new() });
        proof {
            assert(views(self.items@.last().title_ids@) =~= Seq::<Seq<char>>::empty());
            assert(self.items@.drop_last() =~= items0);
            assert forall|j: int| 0 <= j < self.items@.len() implies (#[trigger] self.items@[j]).wf() by {
                if j < items0.len() {
                    assert(self.items@[j] == items0[j]);
                }
            }
        }
        true
    }

    /// Deletes the collection at `index`, if there is one.
    pub fn delete(&mut self, index: usize) -> (deleted: bool)
        requires
            old(self).wf(),
        ensures
            final(self).wf(),
            deleted == (index < old(self).items@.len()),
            deleted ==> final(self).items@ == old(self).items@.remove(index as int),
            !deleted ==> final(self).items@ == old(self).items@,
    {
        if index < self.items.len() {
            let ghost items0 = self.items@;
            self.items.remove(index);
            proof {
                assert forall|j: int| 0 <= j < self.items@.len() implies (#[trigger] self.items@[j]).wf() by {
                    if j < index {
                        assert(self.items@[j] == items0[j]);
                    } else {
                        assert(self.items@[j] == items0[j + 1]);
                    }
                }
            }
            true
        } else {
            false
        }
    }

    /// Whether `index` names a built-in collection.
    pub fn is_default(&self, index: usize) -> (b: bool)
        ensures
            b == (index < DEFAULT_COLLECTION_COUNT),
    {
        index < DEFAULT_COLLECTION_COUNT
    }

    /// Deletes the collection at `index` unless it is built in or missing;
    /// returns whether it was deleted.
    pub fn delete_custom(&mut self, index: usize) -> (deleted: bool)
        requires
            old(self).wf(),
        ensures
            final(self).wf(),
            deleted == (DEFAULT_COLLECTION_COUNT <= index < old(self).items@.len()),
            deleted ==> final(self).items@ == old(self).items@.remove(index as int),
            !deleted ==> final(self).items@ == old(self).items@,
    {
        if self.is_default(index) || index >= self.items.len() {
            return false;
        }
        self.delete(index)
    }

    /// The position of the first collection named `name`, ASCII case
    /// ignored.
    pub fn index_by_name(&self, name: &str) -> (r: Option<usize>)
        ensures
            match r {
                Some(i) => first_index_ignore_case(collection_names(self.items@), name@, i as int),
                None => !contains_ignore_case(collection_names(self.items@), name@),
            },
    {
        let mut i: usize = 0;
        while i < self.items.len()
            invariant
                i <= self.items@.len(),
                forall|j: int| 0 <= j < i ==> lower_seq(#[trigger] collection_names(self.items@)[j]) != lower_seq(name@),
            decreases self.items@.len() - i,
        {
            if eq_ignore_ascii_case(self.items[i].name.as_str(), name) {
                return Some(i);
            }
            i = i + 1;
        }
        None
    }

    /// The position of the favourites collection: the first one named
    /// `Favorites` or `Favoritos`, ASCII case ignored.
    pub fn favorites_index(&self) -> (r: Option<usize>)
        ensures
            match r {
                Some(i) => i < self.items@.len() && is_favorites_name(self.items@[i as int].name@)
                    && forall|j: int| 0 <= j < i ==> !is_favorites_name(#[trigger] self.items@[j].name@),
                None => forall|j: int| 0 <= j < self.items@.len() ==> !is_favorites_name(#[trigger] self.items@[j].name@),
            },
    {
        let mut i: usize = 0;
        while i < self.items.len()
            invariant
                i <= self.items@.len(),
                forall|j: int| 0 <= j < i ==> !is_favorites_name(#[trigger] self.items@[j].name@),
            decreases self.items@.len() - i,
        {
            let name = self.items[i].name.as_str();
            if eq_ignore_ascii_case(name, "Favorites") || eq_ignore_ascii_case(name, "Favoritos") {
                return Some(i);
            }
            i = i + 1;
        }
        None
    }

    /// The names of the collections holding `title_id`, in display order.
    pub fn memberships(&self, title_id: &str) -> (names: Vec<&str>)
        ensures
            names@.map_values(|s: &str| s@) == membership_names(self.items@, title_id@),
    {
        let mut names: Vec<&str> = Vec::new();
        let mut i: usize = 0;
        while i < self.items.len()
            invariant
                i <= self.items@.len(),
                names@.map_values(|s: &str| s@) == membership_names(self.items@.take(i as int), title_id@),
            decreases self.items@.len() - i,
        {
            proof {
                assert(self.items@.take(i as int + 1).drop_last() =~= self.items@.take(i as int));
            }
            if position_of(&self.items[i].title_ids, title_id).is_some() {
                let ghost n0 = names@;
                names.push(self.items[i].name.as_str());
                proof {
                    assert(names@.map_values(|s: &str| s@) =~= n0.map_values(|s: &str| s@).push(
                        self.items@[i as int].name@,
                    ));
                }
            }
            i = i + 1;
        }
        proof {
            assert(self.items@.take(i as int) =~= self.items@);
        }
        names
    }
}

/// Toggling the same title twice in the same collection leaves its members
/// as they were.
pub proof fn law_toggle_twice(a: Seq<Seq<char>>, b: Seq<Seq<char>>, c: Seq<Seq<char>>, id: Seq<char>)
    requires
        forall|k: Seq<char>| #[trigger] b.contains(k) == if k == id {
            !a.contains(id)
        } else {
            a.contains(k)
        },
        forall|k: Seq<char>| #[trigger] c.contains(k) == if k == id {
            !b.contains(id)
        } else {
            b.contains(k)
        },
    ensures
        forall|k: Seq<char>| #[trigger] c.contains(k) == a.contains(k),
{
    assert forall|k: Seq<char>| #[trigger] c.contains(k) == a.contains(k) by {
        if k == id {
            assert(b.contains(id) == !a.contains(id));
        } else {
            assert(b.contains(k) == a.contains(k));
        }
    }
}

/// A collection that its stored text gives back: its `#name` line and each
/// member are clean lines, and no member starts with `#`.
pub open spec fn storable(c: Collection) -> bool {
    &&& clean_line(seq!['#'] + c.name@)
    &&& forall|k: int| 0 <= k < c.members().len() ==> {
        &&& clean_line(#[trigger] c.members()[k])
        &&& c.members()[k][0] != '#'
    }
}

/// The lines of the stored text of `items`, in order.
pub open spec fn stored_lines(items: Seq<Collection>) -> Seq<Seq<char>>
    decreases items.len(),
{
    if items.len() == 0 {
        Seq::empty()
    } else {
        stored_lines(items.drop_last()).push(seq!['#'] + items.last().name@) + items.last().members()
    }
}

proof fn lemma_split_stored(items: Seq<Collection>)
    requires
        forall|i: int| 0 <= i < items.len() ==> storable(#[trigger] items[i]),
    ensures
        split_fold(collections_text(items)) == (stored_lines(items), Seq::<char>::empty()),
    decreases items.len(),
{
    if items.len() > 0 {
        let init = items.drop_last();
        let c = items.last();
        assert(storable(items[items.len() - 1]));
        lemma_split_stored(init);
        let t0 = collections_text(init);
        let h = seq!['#'] + c.name@;
        lemma_split_fold_one_line(t0, h);
        let t1 = t0 + h + seq!['\n'];
        assert forall|k: int| 0 <= k < c.members().len() implies clean_line(#[trigger] c.members()[k]) by {}
        lemma_split_fold_more_lines(t1, c.members());
        assert(collections_text(items) =~= t1 + lines_text(c.members()));
    }
}

proof fn lemma_parse_members(l: Seq<Seq<char>>, n: Seq<char>, ms: Seq<Seq<char>>)
    requires
        forall|k: int| 0 <= k < ms.len() ==> (#[trigger] ms[k]).len() > 0 && ms[k][0] != '#',
    ensures
        parse_fold(l.push(seq!['#'] + n) + ms).len() == parse_fold(l).len() + 1,
        parse_fold(l.push(seq!['#'] + n) + ms).take(parse_fold(l).len() as int) == parse_fold(l),
        parse_fold(l.push(seq!['#'] + n) + ms).last().0 == n,
        forall|x: Seq<char>| #[trigger] parse_fold(l.push(seq!['#'] + n) + ms).last().1.contains(x)
            == ms.contains(x),
    decreases ms.len(),
{
    let h = seq!['#'] + n;
    let p = parse_fold(l);
    if ms.len() == 0 {
        assert(l.push(h) + ms =~= l.push(h));
        assert(l.push(h).drop_last() =~= l);
        assert(h.drop_first() =~= n);
        assert(parse_fold(l.push(h)) == p.push(parsed_collection(n)));
        assert(p.push(parsed_collection(n)).take(p.len() as int) =~= p);
    } else {
        let init = ms.drop_last();
        let m = ms.last();
        assert forall|k: int| 0 <= k < init.len() implies (#[trigger] init[k]).len() > 0 && init[k][0] != '#' by {
            assert(init[k] == ms[k]);
        }
        lemma_parse_members(l, n, init);
        assert((l.push(h) + ms).drop_last() =~= l.push(h) + init);
        assert(ms[ms.len() - 1] == m);
        let acc = parse_fold(l.push(h) + init);
        let r = parse_fold(l.push(h) + ms);
        assert(r == acc.update(acc.len() - 1, (acc.last().0, acc.last().1.insert(m))));
        assert(r.take(p.len() as int) =~= acc.take(p.len() as int));
        assert forall|x: Seq<char>| #[trigger] r.last().1.contains(x) == ms.contains(x) by {
            if init.contains(x) {
                let k = choose|k: int| 0 <= k < init.len() && init[k] == x;
                assert(ms[k] == x);
            }
            if ms.contains(x) && x != m {
                let k = choose|k: int| 0 <= k < ms.len() && ms[k] == x;
                assert(k != ms.len() - 1);
                assert(init[k] == x);
            }
        }
    }
}

proof fn lemma_parse_stored(items: Seq<Collection>)
    requires
        forall|i: int| 0 <= i < items.len() ==> storable(#[trigger] items[i]),
    ensures
        matches_parsed(items, parse_fold(stored_lines(items))),
    decreases items.len(),
{
    if items.len() > 0 {
        let init = items.drop_last();
        let c = items.last();
        assert(storable(items[items.len() - 1]));
        assert forall|i: int| 0 <= i < init.len() implies storable(#[trigger] init[i]) by {
            assert(init[i] == items[i]);
        }
        lemma_parse_stored(init);
        let l = stored_lines(init);
        assert forall|k: int| 0 <= k < c.members().len() implies (#[trigger] c.members()[k]).len() > 0
            && c.members()[k][0] != '#' by {}
        lemma_parse_members(l, c.name@, c.members());
        let r = parse_fold(stored_lines(items));
        let p = parse_fold(l);
        assert forall|i: int| 0 <= i < items.len() implies (#[trigger] items[i]).name@ == r[i].0 by {
            if i < init.len() {
                assert(r[i] == r.take(p.len() as int)[i]);
                assert(items[i] == init[i]);
            }
        }
        assert forall|i: int, k: Seq<char>| 0 <= i < items.len() implies (#[trigger] items[i].members().contains(k)
            == r[i].1.contains(k)) by {
            if i < init.len() {
                assert(r[i] == r.take(p.len() as int)[i]);
                assert(items[i] == init[i]);
            } else {
                assert(r[i] == r.last());
            }
        }
    }
}

/// Saving the collections and reading the text back gives the same
/// collections, in order, with the same names and members, when each one
/// is storable.
pub proof fn law_collections_save_load(c: Collections)
    requires
        forall|i: int| 0 <= i < c.items@.len() ==> storable(#[trigger] c.items@[i]),
    ensures
        matches_parsed(c.items@, parse_fold(content_lines(collections_text(c.items@)))),
{
    lemma_split_stored(c.items@);
    lemma_parse_stored(c.items@);
    let e = Seq::<char>::empty();
    assert(trim_start_seq(e) == e);
    assert(trim_end_seq(e) == e);
    assert(content_lines(collections_text(c.items@)) == stored_lines(c.items@));
}

} // verus!
