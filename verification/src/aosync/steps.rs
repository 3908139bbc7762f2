//! Why each step of applying a plan leaves the destination tree in the
//! state that the model describes.

use crate::apply::{
    applied, expected, free_at, is_temporary, lemma_suffixed_greater, mirrored, moved_away,
    no_collision, occupied_before, plan_context, source_in, suffixed, temporaries, temporary_in,
};
use crate::model::{append_item, append_items, claimed, has_item_for, same_size};
use crate::path::{lemma_lt_asymmetric, lemma_lt_irreflexive, lemma_lt_transitive, path_lt};
use crate::sync_item::SyncItem;
use crate::tree::FileTree;
use vstd::prelude::*;

verus! {

/// What follows from the way the temporary names are chosen.
pub(super) proof fn lemma_temporaries(
    src: FileTree,
    dst: FileTree,
    unmatched_src: Seq<Seq<u8>>,
    unmatched_dst: Seq<Seq<u8>>,
    items: Seq<SyncItem>,
    tmps: Seq<Seq<u8>>,
    n: int,
)
    requires
        append_items(src, dst, unmatched_src, unmatched_dst, items),
        temporaries(dst@, items, tmps, n),
    ensures
        forall|c: int, a: int| 0 <= c < a < n ==> #[trigger] tmps[c] != #[trigger] tmps[a],
        forall|c: int|
            0 <= c < n ==> !(dst@.dom().contains(#[trigger] tmps[c]) && !moved_away(
                items,
                n,
                tmps[c],
            )),
        forall|a: int, c: int|
            0 <= a <= c < n ==> path_lt((#[trigger] items[a]).src@, #[trigger] tmps[c]),
{
    assert forall|c: int, a: int| 0 <= c < a < n implies #[trigger] tmps[c] != #[trigger] tmps[a] by {
        assert(is_temporary(occupied_before(dst@, items, tmps, a), items[a].src@, tmps[a]));
        if tmps[c] == tmps[a] {
            assert(temporary_in(tmps, 0, a, tmps[c]));
            assert(occupied_before(dst@, items, tmps, a).contains(tmps[a]));
        }
    }
    assert forall|c: int| 0 <= c < n implies !(dst@.dom().contains(#[trigger] tmps[c])
        && !moved_away(items, n, tmps[c])) by {
        assert(is_temporary(occupied_before(dst@, items, tmps, c), items[c].src@, tmps[c]));
        if dst@.dom().contains(tmps[c]) && !moved_away(items, n, tmps[c]) {
            if moved_away(items, c, tmps[c]) {
                let a = choose|a: int|
                    0 <= a < c && a < items.len() && (#[trigger] items[a]).dst@ == tmps[c];
                assert(0 <= a < n && items[a].dst@ == tmps[c]);
            }
            assert(occupied_before(dst@, items, tmps, c).contains(tmps[c]));
        }
    }
    assert forall|a: int, c: int| 0 <= a <= c < n implies path_lt(
        (#[trigger] items[a]).src@,
        #[trigger] tmps[c],
    ) by {
        assert(is_temporary(occupied_before(dst@, items, tmps, c), items[c].src@, tmps[c]));
        let k = choose|k: nat|
            free_at(occupied_before(dst@, items, tmps, c), items[c].src@, k) && tmps[c]
                == suffixed(items[c].src@, k);
        lemma_suffixed_greater(items[c].src@, k);
        if a < c {
            lemma_lt_transitive(items[a].src@, items[c].src@, tmps[c]);
        }
    }
}

/// Before any new file is created or any temporary file renamed, the
/// occupied paths are those among which the next temporary name is chosen.
pub(super) proof fn lemma_occupied(
    now: Map<Seq<u8>, Seq<u8>>,
    dst: Map<Seq<u8>, Seq<u8>>,
    src: Map<Seq<u8>, Seq<u8>>,
    items: Seq<SyncItem>,
    tmps: Seq<Seq<u8>>,
    news: Seq<SyncItem>,
    a: int,
)
    requires
        0 <= a,
        applied(now, dst, src, items, tmps, news, a, 0, 0),
    ensures
        now.dom() == occupied_before(dst, items, tmps, a),
{
    assert forall|q: Seq<u8>| now.dom().contains(q) == occupied_before(
        dst,
        items,
        tmps,
        a,
    ).contains(q) by {
        let e = expected(dst, src, items, tmps, news, a, 0, 0, q);
        assert(now.dom().contains(q) == e.is_some());
    }
    assert(now.dom() =~= occupied_before(dst, items, tmps, a));
}

/// One more temporary name, chosen among the occupied paths, keeps the
/// names well chosen.
pub(super) proof fn lemma_temporaries_push(
    dst: Map<Seq<u8>, Seq<u8>>,
    items: Seq<SyncItem>,
    tmps: Seq<Seq<u8>>,
    t: Seq<u8>,
)
    requires
        tmps.len() < items.len(),
        temporaries(dst, items, tmps, tmps.len() as int),
        is_temporary(
            occupied_before(dst, items, tmps, tmps.len() as int),
            items[tmps.len() as int].src@,
            t,
        ),
    ensures
        temporaries(dst, items, tmps.push(t), tmps.len() as int + 1),
{
    let grown = tmps.push(t);
    assert forall|a: int| 0 <= a < tmps.len() + 1 implies is_temporary(
        occupied_before(dst, items, grown, a),
        items[a].src@,
        #[trigger] grown[a],
    ) by {
        assert forall|q: Seq<u8>| temporary_in(grown, 0, a, q) == temporary_in(tmps, 0, a, q) by {
            if temporary_in(grown, 0, a, q) {
                let c = choose|c: int| 0 <= 0 <= c < a && c < grown.len() && #[trigger] grown[c] == q;
                assert(tmps[c] == q);
            }
            if temporary_in(tmps, 0, a, q) {
                let c = choose|c: int| 0 <= 0 <= c < a && c < tmps.len() && #[trigger] tmps[c] == q;
                assert(grown[c] == q);
            }
        }
        assert(occupied_before(dst, items, grown, a) =~= occupied_before(dst, items, tmps, a));
        if a < tmps.len() {
            assert(grown[a] == tmps[a]);
        }
    }
}

/// The state after one more destination file was moved to its temporary
/// name and extended.
pub(super) proof fn lemma_step_move(
    now: Map<Seq<u8>, Seq<u8>>,
    src: FileTree,
    dst: FileTree,
    unmatched_src: Seq<Seq<u8>>,
    unmatched_dst: Seq<Seq<u8>>,
    items: Seq<SyncItem>,
    tmps: Seq<Seq<u8>>,
    news: Seq<SyncItem>,
    t: Seq<u8>,
)
    requires
        append_items(src, dst, unmatched_src, unmatched_dst, items),
        tmps.len() < items.len(),
        temporaries(dst@, items, tmps.push(t), tmps.len() as int + 1),
        applied(now, dst@, src@, items, tmps, news, tmps.len() as int, 0, 0),
    ensures
        now.dom().contains(items[tmps.len() as int].dst@),
        now[items[tmps.len() as int].dst@] == dst@[items[tmps.len() as int].dst@],
        applied(
            now.remove(items[tmps.len() as int].dst@).insert(
                t,
                src@[items[tmps.len() as int].src@],
            ),
            dst@,
            src@,
            items,
            tmps.push(t),
            news,
            tmps.len() as int + 1,
            0,
            0,
        ),
{
    let a = tmps.len() as int;
    let grown = tmps.push(t);
    let d = items[a].dst@;
    let s = items[a].src@;
    let after = now.remove(d).insert(t, src@[s]);
    lemma_temporaries(src, dst, unmatched_src, unmatched_dst, items, grown, a + 1);
    lemma_temporaries(src, dst, unmatched_src, unmatched_dst, items, grown, a);
    assert(append_item(src, dst, items[a]));
    // nothing has touched the destination file at `d` yet
    assert(!moved_away(items, a, d)) by {
        if moved_away(items, a, d) {
            let e = choose|e: int| 0 <= e < a && e < items.len() && (#[trigger] items[e]).dst@ == d;
            assert(items[e].dst@ != items[a].dst@);
        }
    }
    assert(!temporary_in(tmps, 0, a, d)) by {
        if temporary_in(tmps, 0, a, d) {
            let c = choose|c: int| 0 <= 0 <= c < a && c < tmps.len() && #[trigger] tmps[c] == d;
            assert(grown[c] == d);
            assert(!(dst@.dom().contains(grown[c]) && !moved_away(items, a, grown[c])));
        }
    }
    assert(expected(dst@, src@, items, tmps, news, a, 0, 0, d) == Some(dst@[d]));
    assert(t != d) by {
        assert(is_temporary(occupied_before(dst@, items, grown, a), s, grown[a]));
        if t == d {
            assert(occupied_before(dst@, items, grown, a).contains(d));
        }
    }
    assert forall|q: Seq<u8>|
        {
            let e = #[trigger] expected(dst@, src@, items, grown, news, a + 1, 0, 0, q);
            &&& after.dom().contains(q) == e.is_some()
            &&& after.dom().contains(q) ==> after[q] == e.unwrap()
        } by {
        let e0 = expected(dst@, src@, items, tmps, news, a, 0, 0, q);
        assert(now.dom().contains(q) == e0.is_some());
        let e = expected(dst@, src@, items, grown, news, a + 1, 0, 0, q);
        if q == t {
            assert(grown[a] == q);
            assert(temporary_in(grown, 0, a + 1, q));
            let c = choose|c: int|
                0 <= 0 <= c < a + 1 && c < grown.len() && #[trigger] grown[c] == q;
            if c != a {
                assert(grown[c] != grown[a]);
            }
        } else {
            assert(temporary_in(grown, 0, a + 1, q) == temporary_in(tmps, 0, a, q)) by {
                if temporary_in(grown, 0, a + 1, q) {
                    let c = choose|c: int|
                        0 <= 0 <= c < a + 1 && c < grown.len() && #[trigger] grown[c] == q;
                    assert(tmps[c] == q);
                }
                if temporary_in(tmps, 0, a, q) {
                    let c = choose|c: int|
                        0 <= 0 <= c < a && c < tmps.len() && #[trigger] tmps[c] == q;
                    assert(grown[c] == q);
                }
            }
            if temporary_in(tmps, 0, a, q) {
                let c0 = choose|c: int|
                    0 <= 0 <= c < a && c < tmps.len() && #[trigger] tmps[c] == q;
                let c1 = choose|c: int|
                    0 <= 0 <= c < a + 1 && c < grown.len() && #[trigger] grown[c] == q;
                assert(grown[c0] == q);
                if c0 != c1 {
                    assert(grown[c0] != grown[c1]);
                }
                assert(q != d);
            } else if q == d {
                assert(moved_away(items, a + 1, d));
            } else {
                assert(moved_away(items, a + 1, q) == moved_away(items, a, q)) by {
                    if moved_away(items, a + 1, q) {
                        let e = choose|e: int|
                            0 <= e < a + 1 && e < items.len() && (#[trigger] items[e]).dst@ == q;
                        assert(e != a);
                    }
                    if moved_away(items, a, q) {
                        let e = choose|e: int|
                            0 <= e < a && e < items.len() && (#[trigger] items[e]).dst@ == q;
                        assert(0 <= e < a + 1 && items[e].dst@ == q);
                    }
                }
            }
        }
    }
}

/// The state after one more new file was created.
pub(super) proof fn lemma_step_new(
    now: Map<Seq<u8>, Seq<u8>>,
    dst: Map<Seq<u8>, Seq<u8>>,
    src: Map<Seq<u8>, Seq<u8>>,
    items: Seq<SyncItem>,
    tmps: Seq<Seq<u8>>,
    news: Seq<SyncItem>,
    made: int,
)
    requires
        0 <= made < news.len(),
        tmps.len() == items.len(),
        applied(now, dst, src, items, tmps, news, items.len() as int, made, 0),
        !now.dom().contains(news[made].src@),
        no_collision(news, made, tmps),
    ensures
        applied(
            now.insert(news[made].src@, src[news[made].src@]),
            dst,
            src,
            items,
            tmps,
            news,
            items.len() as int,
            made + 1,
            0,
        ),
        no_collision(news, made + 1, tmps),
{
    let p = news[made].src@;
    let m = items.len() as int;
    let after = now.insert(p, src[p]);
    assert(expected(dst, src, items, tmps, news, m, made, 0, p).is_none());
    assert forall|q: Seq<u8>|
        {
            let e = #[trigger] expected(dst, src, items, tmps, news, m, made + 1, 0, q);
            &&& after.dom().contains(q) == e.is_some()
            &&& after.dom().contains(q) ==> after[q] == e.unwrap()
        } by {
        let e0 = expected(dst, src, items, tmps, news, m, made, 0, q);
        assert(now.dom().contains(q) == e0.is_some());
        if q == p {
            assert(source_in(news, made + 1, q));
        } else {
            assert(source_in(news, made + 1, q) == source_in(news, made, q)) by {
                if source_in(news, made + 1, q) {
                    let b = choose|b: int|
                        0 <= b < made + 1 && b < news.len() && (#[trigger] news[b]).src@ == q;
                    assert(b != made);
                }
                if source_in(news, made, q) {
                    let b = choose|b: int|
                        0 <= b < made && b < news.len() && (#[trigger] news[b]).src@ == q;
                    assert(0 <= b < made + 1 && news[b].src@ == q);
                }
            }
        }
    }
    assert forall|b: int, a: int|
        0 <= b < made + 1 && b < news.len() && 0 <= a < tmps.len() implies (#[trigger] news[b]).src@
        != #[trigger] tmps[a] by {
        if b == made && news[b].src@ == tmps[a] {
            assert(temporary_in(tmps, 0, m, tmps[a]));
        }
    }
}

/// The state after one more temporary file was given its final name.
pub(super) proof fn lemma_step_final(
    now: Map<Seq<u8>, Seq<u8>>,
    src: FileTree,
    dst: FileTree,
    unmatched_src: Seq<Seq<u8>>,
    unmatched_dst: Seq<Seq<u8>>,
    items: Seq<SyncItem>,
    tmps: Seq<Seq<u8>>,
    news: Seq<SyncItem>,
    done: int,
)
    requires
        append_items(src, dst, unmatched_src, unmatched_dst, items),
        tmps.len() == items.len(),
        temporaries(dst@, items, tmps, items.len() as int),
        no_collision(news, news.len() as int, tmps),
        0 <= done < items.len(),
        applied(
            now,
            dst@,
            src@,
            items,
            tmps,
            news,
            items.len() as int,
            news.len() as int,
            done,
        ),
    ensures
        now.dom().contains(tmps[done]),
        now[tmps[done]] == src@[items[done].src@],
        applied(
            now.remove(tmps[done]).insert(items[done].src@, src@[items[done].src@]),
            dst@,
            src@,
            items,
            tmps,
            news,
            items.len() as int,
            news.len() as int,
            done + 1,
        ),
{
    let m = items.len() as int;
    let nn = news.len() as int;
    let t = tmps[done];
    let s = items[done].src@;
    let after = now.remove(t).insert(s, src@[s]);
    lemma_temporaries(src, dst, unmatched_src, unmatched_dst, items, tmps, m);
    assert(temporary_in(tmps, done, m, t));
    assert(expected(dst@, src@, items, tmps, news, m, nn, done, t) == Some(src@[s])) by {
        let c = choose|c: int| 0 <= done <= c < m && c < tmps.len() && #[trigger] tmps[c] == t;
        if c != done {
            assert(tmps[c] != tmps[done]);
        }
    }
    assert(path_lt(items[done].src@, tmps[done]));
    lemma_lt_asymmetric(s, t);
    assert forall|q: Seq<u8>|
        {
            let e = #[trigger] expected(dst@, src@, items, tmps, news, m, nn, done + 1, q);
            &&& after.dom().contains(q) == e.is_some()
            &&& after.dom().contains(q) ==> after[q] == e.unwrap()
        } by {
        let e0 = expected(dst@, src@, items, tmps, news, m, nn, done, q);
        assert(now.dom().contains(q) == e0.is_some());
        if q == s {
            assert(!temporary_in(tmps, done + 1, m, q)) by {
                if temporary_in(tmps, done + 1, m, q) {
                    let c = choose|c: int|
                        0 <= done + 1 <= c < m && c < tmps.len() && #[trigger] tmps[c] == q;
                    assert(path_lt(items[done].src@, tmps[c]));
                    lemma_lt_irreflexive(q);
                }
            }
            assert(source_in(items, done + 1, q));
        } else if q == t {
            assert(!temporary_in(tmps, done + 1, m, q)) by {
                if temporary_in(tmps, done + 1, m, q) {
                    let c = choose|c: int|
                        0 <= done + 1 <= c < m && c < tmps.len() && #[trigger] tmps[c] == q;
                    assert(tmps[done] != tmps[c]);
                }
            }
            assert(!source_in(items, done + 1, q)) by {
                if source_in(items, done + 1, q) {
                    let e = choose|e: int|
                        0 <= e < done + 1 && e < items.len() && (#[trigger] items[e]).src@ == q;
                    assert(path_lt(items[e].src@, tmps[done]));
                    lemma_lt_irreflexive(q);
                }
            }
            assert(!source_in(news, nn, q)) by {
                if source_in(news, nn, q) {
                    let b = choose|b: int|
                        0 <= b < nn && b < news.len() && (#[trigger] news[b]).src@ == q;
                    assert(news[b].src@ != tmps[done]);
                }
            }
            assert(!(dst@.dom().contains(tmps[done]) && !moved_away(items, m, tmps[done])));
        } else {
            assert(temporary_in(tmps, done + 1, m, q) == temporary_in(tmps, done, m, q)) by {
                if temporary_in(tmps, done, m, q) {
                    let c = choose|c: int|
                        0 <= done <= c < m && c < tmps.len() && #[trigger] tmps[c] == q;
                    assert(c != done);
                    assert(0 <= done + 1 <= c < m && tmps[c] == q);
                }
                if temporary_in(tmps, done + 1, m, q) {
                    let c = choose|c: int|
                        0 <= done + 1 <= c < m && c < tmps.len() && #[trigger] tmps[c] == q;
                    assert(0 <= done <= c < m && tmps[c] == q);
                }
            }
            if temporary_in(tmps, done, m, q) {
                let c0 = choose|c: int|
                    0 <= done <= c < m && c < tmps.len() && #[trigger] tmps[c] == q;
                let c1 = choose|c: int|
                    0 <= done + 1 <= c < m && c < tmps.len() && #[trigger] tmps[c] == q;
                if c0 != c1 {
                    assert(tmps[c0] != tmps[c1]);
                }
            } else {
                assert(source_in(items, done + 1, q) == source_in(items, done, q)) by {
                    if source_in(items, done + 1, q) {
                        let e = choose|e: int|
                            0 <= e < done + 1 && e < items.len() && (#[trigger] items[e]).src@
                                == q;
                        assert(e != done);
                    }
                    if source_in(items, done, q) {
                        let e = choose|e: int|
                            0 <= e < done && e < items.len() && (#[trigger] items[e]).src@ == q;
                        assert(0 <= e < done + 1 && items[e].src@ == q);
                    }
                }
            }
        }
    }
}

/// Once every phase is through, the destination tree mirrors the source.
pub(super) proof fn lemma_final_state(
    now: Map<Seq<u8>, Seq<u8>>,
    src: FileTree,
    dst: FileTree,
    unmatched_src: Seq<Seq<u8>>,
    unmatched_dst: Seq<Seq<u8>>,
    same_count: int,
    items: Seq<SyncItem>,
    tmps: Seq<Seq<u8>>,
    news: Seq<SyncItem>,
)
    requires
        plan_context(src, dst, unmatched_src, unmatched_dst, same_count, items, news),
        applied(
            now,
            dst@,
            src@,
            items,
            tmps,
            news,
            items.len() as int,
            news.len() as int,
            items.len() as int,
        ),
    ensures
        now == mirrored(src, dst),
{
    let m = items.len() as int;
    let nn = news.len() as int;
    let goal = mirrored(src, dst);
    assert forall|q: Seq<u8>|
        (#[trigger] now.dom().contains(q)) == goal.dom().contains(q) && (now.dom().contains(q)
            ==> now[q] == goal[q]) by {
        let e = expected(dst@, src@, items, tmps, news, m, nn, m, q);
        assert(now.dom().contains(q) == e.is_some());
        assert(!temporary_in(tmps, m, m, q));
        if source_in(items, m, q) {
            let a = choose|a: int| 0 <= a < m && a < items.len() && (#[trigger] items[a]).src@ == q;
            assert(unmatched_src.contains(items[a].src@));
        } else if source_in(news, nn, q) {
            let b = choose|b: int| 0 <= b < nn && b < news.len() && (#[trigger] news[b]).src@ == q;
            assert(unmatched_src.contains(news[b].src@));
        } else if dst@.dom().contains(q) && !moved_away(items, m, q) {
            if unmatched_dst.contains(q) {
                let t = choose|t: int| 0 <= t < unmatched_dst.len() && unmatched_dst[t] == q;
                assert(has_item_for(items, unmatched_dst[t]));
                let a = choose|a: int| 0 <= a < items.len() && (#[trigger] items[a]).dst@ == q;
                assert(moved_away(items, m, q));
            }
        } else {
            if src@.dom().contains(q) {
                if same_size(src, dst, q) {
                    let a = choose|a: int|
                        0 <= a < m && a < items.len() && (#[trigger] items[a]).dst@ == q;
                    assert(unmatched_dst.contains(items[a].dst@));
                } else {
                    assert(unmatched_src.contains(q));
                    let k = choose|k: int| 0 <= k < unmatched_src.len() && unmatched_src[k] == q;
                    if claimed(items, unmatched_src[k]) {
                        let a = choose|a: int|
                            0 <= a < items.len() && (#[trigger] items[a]).src@ == q;
                        assert(source_in(items, m, q));
                    } else {
                        assert(claimed(news, unmatched_src[k]));
                        let b = choose|b: int|
                            0 <= b < news.len() && (#[trigger] news[b]).src@ == q;
                        assert(source_in(news, nn, q));
                    }
                }
            }
        }
    }
    assert(now.dom() =~= goal.dom());
    assert(now =~= goal);
}

} // verus!
