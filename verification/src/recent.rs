use vstd::prelude::*;

use crate::text::{
    clean_line, content_lines, content_lines_of, lemma_content_lines_of_lines_text, lemma_views_push, lines_text,
    push_str, str_equal, views,
};

verus! {

/// How many recently played titles are remembered.
pub const MAX_RECENT_ENTRIES: usize = 30;

/// The test that keeps every entry other than `id`.
pub open spec fn differs_from(id: Seq<char>) -> spec_fn(Seq<char>) -> bool {
    |x: Seq<char>| x != id
}

/// The recently played list after playing `id`: `id` first, then the earlier
/// entries other than `id` in their order, cut to the maximum length.
pub open spec fn touched(ids: Seq<Seq<char>>, id: Seq<char>) -> Seq<Seq<char>> {
    let rest = ids.filter(differs_from(id));
    let all = seq![id] + rest;
    if all.len() > MAX_RECENT_ENTRIES {
        all.take(MAX_RECENT_ENTRIES as int)
    } else {
        all
    }
}

/// Title ids of recently launched games, most recent first.
pub struct RecentlyPlayed {
    title_ids: Vec<String>,
}

impl RecentlyPlayed {
    /// The remembered title ids, most recent first.
    pub closed spec fn ids(&self) -> Seq<Seq<char>> {
        views(self.title_ids@)
    }

    /// An empty list.
    pub fn new() -> (r: Self)
        ensures
            r.ids() == Seq::<Seq<char>>::empty(),
    {
        let r = RecentlyPlayed { title_ids: Vec::new() };
        proof {
            assert(views(r.title_ids@) =~= Seq::<Seq<char>>::empty());
        }
        r
    }

    /// Reads the list from its stored text: one title id per line, trimmed,
    /// blank lines skipped.
    pub fn from_text(text: &str) -> (r: Self)
        ensures
            r.ids() == content_lines(text@),
    {
        RecentlyPlayed { title_ids: content_lines_of(text) }
    }

    /// The stored text of the list.
    pub fn to_text(&self) -> (t: String)
        ensures
            t@ == lines_text(self.ids()),
    {
        let mut t = String::new();
        let mut i: usize = 0;
        while i < self.title_ids.len()
            invariant
                i <= self.title_ids@.len(),
                t@ == lines_text(views(self.title_ids@).take(i as int)),
            decreases self.title_ids@.len() - i,
        {
            proof {
                assert(views(self.title_ids@).take(i as int + 1).drop_last() =~= views(self.title_ids@).take(
                    i as int,
                ));
            }
            push_str(&mut t, self.title_ids[i].as_str());
            t.push('\n');
            proof {
                assert(t@ =~= lines_text(views(self.title_ids@).take(i as int + 1)));
            }
            i = i + 1;
        }
        proof {
            assert(views(self.title_ids@).take(i as int) =~= views(self.title_ids@));
        }
        t
    }

    /// Records that `title_id` was just played: it moves to the front, and
    /// the list keeps at most the maximum number of entries.
    pub fn touch(&mut self, title_id: &str)
        ensures
            final(self).ids() == touched(old(self).ids(), title_id@),
    {
        let ghost old_ids = views(self.title_ids@);
        let mut kept: Vec<String> = Vec::new();
        kept.push(title_id.to_owned());
        let mut i: usize = 0;
        while i < self.title_ids.len() && kept.len() < MAX_RECENT_ENTRIES
            invariant
                i <= self.title_ids@.len(),
                old_ids == views(self.title_ids@),
                1 <= kept@.len() <= MAX_RECENT_ENTRIES,
                views(kept@) == seq![title_id@] + old_ids.take(i as int).filter(differs_from(title_id@)),
            decreases self.title_ids@.len() - i,
        {
            proof {
                assert(old_ids.take(i as int + 1).drop_last() =~= old_ids.take(i as int));
            }
            if !str_equal(self.title_ids[i].as_str(), title_id) {
                let s = self.title_ids[i].clone();
                let ghost k0 = kept@;
                kept.push(s);
                proof {
                    reveal(Seq::filter);
                    lemma_views_push(k0, s);
                    assert(views(kept@) =~= seq![title_id@] + old_ids.take(i as int + 1).filter(
                        differs_from(title_id@),
                    ));
                }
            } else {
                proof {
                    reveal(Seq::filter);
                    assert(old_ids.take(i as int + 1).filter(differs_from(title_id@)) == old_ids.take(
                        i as int,
                    ).filter(differs_from(title_id@)));
                }
            }
            i = i + 1;
        }
        proof {
            let pred = differs_from(title_id@);
            let all = seq![title_id@] + old_ids.filter(pred);
            if i == old_ids.len() {
                assert(old_ids.take(i as int) =~= old_ids);
            } else {
                // The list is full: the entries still to come lie beyond the cut.
                assert(kept@.len() == MAX_RECENT_ENTRIES);
                lemma_filter_prefix(old_ids, i as int, pred);
                assert(views(kept@) =~= all.take(MAX_RECENT_ENTRIES as int));
            }
        }
        self.title_ids = kept;
    }

    /// The remembered title ids, most recent first.
    pub fn order(&self) -> (ids: &[String])
        ensures
            views(ids@) == self.ids(),
    {
        self.title_ids.as_slice()
    }
}

/// Filtering a prefix gives a prefix of the filtered sequence.
proof fn lemma_filter_prefix(s: Seq<Seq<char>>, i: int, pred: spec_fn(Seq<char>) -> bool)
    requires
        0 <= i <= s.len(),
    ensures
        s.filter(pred).take(s.take(i).filter(pred).len() as int) == s.take(i).filter(pred),
        s.take(i).filter(pred).len() <= s.filter(pred).len(),
    decreases s.len() - i,
{
    reveal(Seq::filter);
    if i == s.len() {
        assert(s.take(i) =~= s);
        assert(s.filter(pred).take(s.filter(pred).len() as int) =~= s.filter(pred));
    } else {
        lemma_filter_prefix(s, i + 1, pred);
        assert(s.take(i + 1).drop_last() =~= s.take(i));
        let a = s.take(i).filter(pred);
        let b = s.take(i + 1).filter(pred);
        let f = s.filter(pred);
        assert(f.take(b.len() as int) == b);
        if pred(s[i]) {
            assert(b == a.push(s[i]));
            assert(f.take(a.len() as int) =~= b.take(a.len() as int));
            assert(b.take(a.len() as int) =~= a);
        } else {
            assert(b == a);
        }
    }
}

/// Filtering a sequence without repeats leaves one without repeats.
proof fn lemma_filter_no_duplicates(s: Seq<Seq<char>>, pred: spec_fn(Seq<char>) -> bool)
    requires
        s.no_duplicates(),
    ensures
        s.filter(pred).no_duplicates(),
    decreases s.len(),
{
    reveal(Seq::filter);
    if s.len() > 0 {
        let d = s.drop_last();
        assert(d.no_duplicates()) by {
            assert forall|a: int, b: int| 0 <= a < d.len() && 0 <= b < d.len() && a != b implies d[a] != d[b] by {
                assert(d[a] == s[a]);
                assert(d[b] == s[b]);
            }
        }
        lemma_filter_no_duplicates(d, pred);
        let f = d.filter(pred);
        if pred(s.last()) {
            assert forall|k: int| 0 <= k < f.len() implies f[k] != s.last() by {
                if f[k] == s.last() {
                    broadcast use vstd::seq_lib::group_filter_ensures;
                    assert(f.contains(f[k]));
                    d.lemma_filter_contains_rev(pred, f[k]);
                    let m = choose|m: int| 0 <= m < d.len() && d[m] == f[k];
                    assert(s[m] == s[s.len() - 1]);
                }
            }
            let g = f.push(s.last());
            assert forall|a: int, b: int| 0 <= a < g.len() && 0 <= b < g.len() && a != b implies g[a] != g[b] by {
                if a < f.len() && b < f.len() {
                } else if a < f.len() {
                    assert(g[a] == f[a]);
                } else if b < f.len() {
                    assert(g[b] == f[b]);
                }
            }
        }
    }
}

/// After playing a title it is first in the list, appears there once, the
/// list never grows past its limit, and a list without repeats stays so.
pub proof fn law_touch_front_unique(ids: Seq<Seq<char>>, id: Seq<char>)
    ensures
        touched(ids, id).len() >= 1,
        touched(ids, id)[0] == id,
        touched(ids, id).len() <= MAX_RECENT_ENTRIES,
        forall|k: int| 1 <= k < touched(ids, id).len() ==> touched(ids, id)[k] != id,
        ids.no_duplicates() ==> touched(ids, id).no_duplicates(),
{
    let pred = differs_from(id);
    let rest = ids.filter(pred);
    let all = seq![id] + rest;
    assert forall|k: int| 0 <= k < rest.len() implies rest[k] != id by {
        ids.lemma_filter_pred(pred, k);
    }
    assert(all[0] == id);
    assert forall|k: int| 1 <= k < all.len() implies all[k] != id by {
        assert(all[k] == rest[k - 1]);
    }
    if ids.no_duplicates() {
        lemma_filter_no_duplicates(ids, pred);
        assert(all.no_duplicates()) by {
            assert forall|a: int, b: int| 0 <= a < all.len() && 0 <= b < all.len() && a != b implies all[a] != all[b] by {
                if a > 0 && b > 0 {
                    assert(all[a] == rest[a - 1]);
                    assert(all[b] == rest[b - 1]);
                }
            }
        }
        if all.len() > MAX_RECENT_ENTRIES {
            let t = all.take(MAX_RECENT_ENTRIES as int);
            assert forall|a: int, b: int| 0 <= a < t.len() && 0 <= b < t.len() && a != b implies t[a] != t[b] by {
                assert(t[a] == all[a]);
                assert(t[b] == all[b]);
            }
        }
    }
}

/// Saving the list and reading the text back gives the same list, when
/// every title id is a clean line (not empty, no line feed, no white space
/// at either end).
pub proof fn law_recent_save_load(r: RecentlyPlayed)
    requires
        forall|i: int| 0 <= i < r.ids().len() ==> clean_line(#[trigger] r.ids()[i]),
    ensures
        content_lines(lines_text(r.ids())) == r.ids(),
{
    lemma_content_lines_of_lines_text(r.ids());
}

} // verus!
