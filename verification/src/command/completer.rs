//! Completion of command names by prefix.
//!
//! The known names are kept in a prefix tree over their bytes. A query walks
//! the tree along the bytes of the prefix and lists every name below the node
//! that it reaches.

use vstd::prelude::*;
use vstd::string::*;
use vstd::utf8::*;

verus! {

/// One byte of a name, with the bytes that may follow it.
#[derive(Debug)]
struct PrefixNode {
    data: u8,
    is_end: bool,
    children: Vec<PrefixNode>,
}

/// Whether the path that spells `word` starts at `node` and ends at a node
/// that closes a name.
spec fn node_holds(node: PrefixNode, word: Seq<u8>) -> bool
    decreases word.len(), 0int,
{
    &&& word.len() > 0
    &&& node.data == word[0]
    &&& if word.len() == 1 {
        node.is_end
    } else {
        holds(node.children@, word.drop_first())
    }
}

/// Whether `word` is one of the names kept below `children`.
spec fn holds(children: Seq<PrefixNode>, word: Seq<u8>) -> bool
    decreases word.len(), 1int,
{
    exists|i: int| 0 <= i < children.len() && node_holds(#[trigger] children[i], word)
}

/// No two siblings stand for the same byte, at any depth.
spec fn distinct_siblings(children: Seq<PrefixNode>) -> bool
    decreases children,
{
    &&& forall|i: int, j: int|
        0 <= i < j < children.len() ==> (#[trigger] children[i]).data != (
        #[trigger] children[j]).data
    &&& forall|i: int|
        0 <= i < children.len() ==> distinct_siblings((#[trigger] children[i]).children@)
}

/// The index of the first node among `children` that stands for `byte`.
fn position(children: &Vec<PrefixNode>, byte: u8) -> (found: Option<usize>)
    ensures
        match found {
            Some(index) => index < children.len() && children[index as int].data == byte,
            None => forall|i: int| 0 <= i < children.len() ==> children[i].data != byte,
        },
{
    let mut i: usize = 0;
    while i < children.len()
        invariant
            i <= children.len(),
            forall|k: int| 0 <= k < i ==> children[k].data != byte,
        decreases children.len() - i,
    {
        if children[i].data == byte {
            return Some(i);
        }
        i = i + 1;
    }
    None
}

/// Adds the name spelled by the bytes of `word` from `at` on.
fn insert(children: &mut Vec<PrefixNode>, word: &[u8], at: usize)
    requires
        at < word.len(),
        distinct_siblings(old(children)@),
    ensures
        distinct_siblings(final(children)@),
        forall|w: Seq<u8>| #[trigger]
            holds(final(children)@, w) <==> holds(old(children)@, w) || w == word@.skip(at as int),
    decreases word.len() - at,
{
    let byte = word[at];
    let last = at + 1 == word.len();
    let ghost target = word@.skip(at as int);
    let ghost before = children@;
    assert(target.len() > 0 && target[0] == byte);
    assert(target.drop_first() =~= word@.skip(at + 1));
    match position(children, byte) {
        Some(index) => {
            if last {
                children[index].is_end = true;
            } else {
                insert(&mut children[index].children, word, at + 1);
            }
            let ghost after = children@;
            assert(after.len() == before.len());
            assert(forall|i: int| 0 <= i < before.len() && i != index ==> after[i] == before[i]);
            assert(after[index as int].data == before[index as int].data);
            if last {
                assert(after[index as int].is_end);
                assert(after[index as int].children == before[index as int].children);
            } else {
                assert(after[index as int].is_end == before[index as int].is_end);
                assert(forall|w: Seq<u8>| #[trigger]
                    holds(after[index as int].children@, w) <==> holds(
                        before[index as int].children@,
                        w,
                    ) || w == word@.skip(at + 1));
            }
            assert forall|i: int, w: Seq<u8>| 0 <= i < before.len() implies (#[trigger] node_holds(
                after[i],
                w,
            ) <==> node_holds(before[i], w) || (i == index && w == target)) by {
                if i == index {
                    if w.len() > 0 && w[0] == byte {
                        if last {
                            assert(target.len() == 1);
                            assert(w == target <==> w.len() == 1) by {
                                if w.len() == 1 {
                                    assert(w =~= target);
                                }
                            }
                        } else {
                            assert(target.len() > 1);
                            assert(w == target <==> (w.len() > 1 && w.drop_first()
                                == target.drop_first())) by {
                                if w.len() > 1 && w.drop_first() == target.drop_first() {
                                    assert(w =~= seq![w[0]] + w.drop_first());
                                    assert(target =~= seq![target[0]] + target.drop_first());
                                }
                            }
                            if w.len() > 1 {
                                let rest = w.drop_first();
                                assert(holds(after[index as int].children@, rest) <==> holds(
                                    before[index as int].children@,
                                    rest,
                                ) || rest == word@.skip(at + 1));
                                assert(node_holds(after[i], w) == holds(after[i].children@, rest));
                                assert(node_holds(before[i], w) == holds(
                                    before[i].children@,
                                    rest,
                                ));
                            }
                        }
                    }
                } else {
                    assert(after[i] == before[i]);
                }
            }
            assert forall|w: Seq<u8>| #[trigger]
                holds(after, w) <==> holds(before, w) || w == target by {
                if holds(after, w) {
                    let i = choose|i: int| 0 <= i < after.len() && node_holds(#[trigger] after[i], w);
                    assert(node_holds(before[i], w) || w == target);
                }
                if holds(before, w) {
                    let i = choose|i: int|
                        0 <= i < before.len() && node_holds(#[trigger] before[i], w);
                    assert(node_holds(after[i], w));
                }
                if w == target {
                    assert(node_holds(after[index as int], w));
                }
            }
            assert(distinct_siblings(after)) by {
                assert forall|i: int| 0 <= i < after.len() implies distinct_siblings(
                    (#[trigger] after[i]).children@,
                ) by {
                    if i != index {
                        assert(after[i] == before[i]);
                    }
                }
            }
        },
        None => {
            let mut node = PrefixNode { data: byte, is_end: last, children: Vec::new() };
            if !last {
                assert(distinct_siblings(node.children@));
                insert(&mut node.children, word, at + 1);
            }
            assert forall|w: Seq<u8>| #[trigger] node_holds(node, w) <==> w == target by {
                if w.len() > 0 && w[0] == byte {
                    if last {
                        if w.len() == 1 {
                            assert(w =~= target);
                        }
                    } else {
                        assert(target.len() > 1);
                        if w.len() > 1 {
                            let rest = w.drop_first();
                            assert(!holds(Seq::<PrefixNode>::empty(), rest));
                            assert(holds(node.children@, rest) <==> rest == word@.skip(at + 1));
                            assert(node_holds(node, w) == holds(node.children@, rest));
                            if rest == target.drop_first() {
                                assert(w =~= seq![w[0]] + w.drop_first());
                                assert(target =~= seq![target[0]] + target.drop_first());
                            }
                        }
                    }
                }
            }
            children.push(node);
            let ghost after = children@;
            assert forall|w: Seq<u8>| #[trigger]
                holds(after, w) <==> holds(before, w) || w == target by {
                if holds(after, w) {
                    let i = choose|i: int| 0 <= i < after.len() && node_holds(#[trigger] after[i], w);
                    if i < before.len() {
                        assert(after[i] == before[i]);
                        assert(node_holds(before[i], w));
                    }
                }
                if holds(before, w) {
                    let i = choose|i: int|
                        0 <= i < before.len() && node_holds(#[trigger] before[i], w);
                    assert(after[i] == before[i]);
                    assert(node_holds(after[i], w));
                }
                if w == target {
                    assert(node_holds(after[before.len() as int], w));
                }
            }
            assert(distinct_siblings(after)) by {
                assert forall|i: int| 0 <= i < after.len() implies distinct_siblings(
                    (#[trigger] after[i]).children@,
                ) by {
                    if i < before.len() {
                        assert(after[i] == before[i]);
                    }
                }
            }
        },
    }
}

/// The names below `node`, each after `prefix`: the name that ends at the
/// node first, then the names of its children.
spec fn node_listing(node: PrefixNode, prefix: Seq<u8>) -> Seq<Seq<u8>>
    decreases node,
{
    let path = prefix.push(node.data);
    (if node.is_end {
        seq![path]
    } else {
        Seq::empty()
    }) + listing(node.children@, path)
}

/// The names below `children`, each after `prefix`, the last child first.
spec fn listing(children: Seq<PrefixNode>, prefix: Seq<u8>) -> Seq<Seq<u8>>
    decreases children,
{
    if children.len() == 0 {
        Seq::empty()
    } else {
        node_listing(children.last(), prefix) + listing(children.drop_last(), prefix)
    }
}

/// `word` is `prefix` followed by at least one more byte.
spec fn extends(word: Seq<u8>, prefix: Seq<u8>) -> bool {
    word.len() > prefix.len() && word.take(prefix.len() as int) == prefix
}

/// A listing names each name below the node once, and nothing else.
proof fn lemma_node_listing(node: PrefixNode, prefix: Seq<u8>)
    requires
        distinct_siblings(node.children@),
    ensures
        node_listing(node, prefix).no_duplicates(),
        forall|w: Seq<u8>| #[trigger]
            node_listing(node, prefix).contains(w) <==> extends(w, prefix) && node_holds(
                node,
                w.skip(prefix.len() as int),
            ),
    decreases node,
{
    let n = prefix.len() as int;
    let path = prefix.push(node.data);
    let own = if node.is_end {
        seq![path]
    } else {
        Seq::empty()
    };
    let below = listing(node.children@, path);
    lemma_listing(node.children@, path);
    let all = node_listing(node, prefix);
    assert(all == own + below);
    assert forall|w: Seq<u8>| #[trigger]
        all.contains(w) <==> extends(w, prefix) && node_holds(node, w.skip(n)) by {
        let rest = w.skip(n);
        if all.contains(w) {
            let k = choose|k: int| 0 <= k < all.len() && all[k] == w;
            if k < own.len() {
                assert(w == path);
                assert(w.take(n) =~= prefix);
                assert(rest =~= seq![node.data]);
                assert(extends(w, prefix));
                assert(node_holds(node, rest));
            } else {
                assert(below[k - own.len()] == w);
                assert(below.contains(w));
                assert(extends(w, path));
                assert(w.take(n) =~= w.take(n + 1).take(n));
                assert(path.take(n) =~= prefix);
                assert(w.take(n + 1)[n] == w[n]);
                assert(rest.drop_first() =~= w.skip(n + 1));
                assert(holds(node.children@, rest.drop_first()));
                assert(extends(w, prefix));
                assert(rest[0] == node.data);
                assert(node_holds(node, rest));
            }
        }
        if extends(w, prefix) && node_holds(node, rest) {
            if rest.len() == 1 {
                assert(w =~= path);
                assert(all[0] == w);
                assert(all.contains(w));
            } else {
                assert(rest.drop_first() =~= w.skip(n + 1));
                assert(w.take(n + 1) =~= path);
                assert(holds(node.children@, w.skip(n + 1)));
                assert(below.contains(w));
                let k = choose|k: int| 0 <= k < below.len() && below[k] == w;
                assert(all[own.len() + k] == w);
                assert(all.contains(w));
            }
        }
    }
    assert(all.no_duplicates()) by {
        assert forall|i: int, j: int| 0 <= i < own.len() && 0 <= j < below.len() implies own[i]
            != below[j] by {
            assert(below.contains(below[j]));
            assert(extends(below[j], path));
        }
        vstd::seq_lib::lemma_no_dup_in_concat(own, below);
    }
}

/// A listing names each name below the children once, and nothing else.
proof fn lemma_listing(children: Seq<PrefixNode>, prefix: Seq<u8>)
    requires
        distinct_siblings(children),
    ensures
        listing(children, prefix).no_duplicates(),
        forall|w: Seq<u8>| #[trigger]
            listing(children, prefix).contains(w) <==> extends(w, prefix) && holds(
                children,
                w.skip(prefix.len() as int),
            ),
    decreases children,
{
    let n = prefix.len() as int;
    let all = listing(children, prefix);
    if children.len() == 0 {
        assert(all =~= Seq::<Seq<u8>>::empty());
    } else {
        let last = children.last();
        let init = children.drop_last();
        assert(distinct_siblings(init)) by {
            assert forall|i: int| 0 <= i < init.len() implies distinct_siblings(
                (#[trigger] init[i]).children@,
            ) by {
                assert(init[i] == children[i]);
            }
            assert forall|i: int, j: int| 0 <= i < j < init.len() implies (#[trigger] init[i]).data
                != (#[trigger] init[j]).data by {
                assert(init[i] == children[i] && init[j] == children[j]);
            }
        }
        assert(distinct_siblings(last.children@));
        lemma_node_listing(last, prefix);
        lemma_listing(init, prefix);
        let first = node_listing(last, prefix);
        let others = listing(init, prefix);
        assert(all == first + others);
        assert forall|w: Seq<u8>| #[trigger]
            all.contains(w) <==> extends(w, prefix) && holds(children, w.skip(n)) by {
            let rest = w.skip(n);
            if all.contains(w) {
                let k = choose|k: int| 0 <= k < all.len() && all[k] == w;
                if k < first.len() {
                    assert(first[k] == w);
                    assert(first.contains(w));
                    assert(node_holds(children[children.len() - 1], rest));
                } else {
                    assert(others[k - first.len()] == w);
                    assert(others.contains(w));
                    let i = choose|i: int| 0 <= i < init.len() && node_holds(#[trigger] init[i], rest);
                    assert(node_holds(children[i], rest));
                }
            }
            if extends(w, prefix) && holds(children, rest) {
                let i = choose|i: int|
                    0 <= i < children.len() && node_holds(#[trigger] children[i], rest);
                if i == children.len() - 1 {
                    assert(first.contains(w));
                    let k = choose|k: int| 0 <= k < first.len() && first[k] == w;
                    assert(all[k] == w);
                } else {
                    assert(node_holds(init[i], rest));
                    assert(others.contains(w));
                    let k = choose|k: int| 0 <= k < others.len() && others[k] == w;
                    assert(all[first.len() + k] == w);
                }
            }
        }
        assert(all.no_duplicates()) by {
            assert forall|i: int, j: int|
                0 <= i < first.len() && 0 <= j < others.len() implies first[i] != others[j] by {
                assert(first.contains(first[i]));
                assert(others.contains(others[j]));
                if first[i] == others[j] {
                    let rest = first[i].skip(n);
                    let k = choose|k: int| 0 <= k < init.len() && node_holds(#[trigger] init[k], rest);
                    assert(init[k] == children[k]);
                    assert(children[k].data == rest[0]);
                    assert(children[children.len() - 1].data == rest[0]);
                }
            }
            vstd::seq_lib::lemma_no_dup_in_concat(first, others);
        }
    }
}

/// Among distinct siblings the child that stands for the first byte of a
/// word decides whether the word is kept.
proof fn lemma_unique_child(children: Seq<PrefixNode>, k: int, word: Seq<u8>)
    requires
        distinct_siblings(children),
        0 <= k < children.len(),
        word.len() > 0,
        children[k].data == word[0],
    ensures
        holds(children, word) <==> node_holds(children[k], word),
{
    if holds(children, word) {
        let i = choose|i: int| 0 <= i < children.len() && node_holds(#[trigger] children[i], word);
        assert(children[i].data == word[0]);
        assert(i == k);
    }
}

/// The children that the path `prefix` leads to, if the tree has that path.
spec fn descend(children: Seq<PrefixNode>, prefix: Seq<u8>) -> Option<
    Seq<PrefixNode>,
>
    decreases prefix.len(),
{
    if prefix.len() == 0 {
        Some(children)
    } else if exists|i: int| 0 <= i < children.len() && (#[trigger] children[i]).data == prefix[0] {
        let i = choose|i: int| 0 <= i < children.len() && (#[trigger] children[i]).data == prefix[0];
        descend(children[i].children@, prefix.drop_first())
    } else {
        None
    }
}

/// The names that start with `prefix`, in the order of the walk: `prefix`
/// itself if it is a name, then the names below the node that it leads to.
spec fn matches(children: Seq<PrefixNode>, prefix: Seq<u8>) -> Seq<Seq<u8>> {
    match descend(children, prefix) {
        Some(level) => (if holds(children, prefix) {
            seq![prefix]
        } else {
            Seq::empty()
        }) + listing(level, prefix),
        None => Seq::empty(),
    }
}

/// What the path `prefix` leads to holds the rest of every name that starts
/// with `prefix`, and where there is no such path there is no such name.
proof fn lemma_descend(children: Seq<PrefixNode>, prefix: Seq<u8>)
    requires
        distinct_siblings(children),
    ensures
        match descend(children, prefix) {
            Some(level) => distinct_siblings(level) && forall|w: Seq<u8>|
                extends(w, prefix) ==> (holds(children, w) <==> #[trigger] holds(
                    level,
                    w.skip(prefix.len() as int),
                )),
            None => !holds(children, prefix) && forall|w: Seq<u8>|
                extends(w, prefix) ==> !#[trigger] holds(children, w),
        },
    decreases prefix.len(),
{
    if prefix.len() == 0 {
        assert forall|w: Seq<u8>| extends(w, prefix) implies (holds(children, w) <==> #[trigger] holds(
            children,
            w.skip(0),
        )) by {
            assert(w.skip(0) =~= w);
        }
    } else if exists|i: int| 0 <= i < children.len() && (#[trigger] children[i]).data == prefix[0] {
        let i = choose|i: int| 0 <= i < children.len() && (#[trigger] children[i]).data == prefix[0];
        let below = children[i].children@;
        let tail = prefix.drop_first();
        lemma_descend(below, tail);
        assert(descend(children, prefix) == descend(below, tail));
        match descend(below, tail) {
            Some(level) => {
                assert forall|w: Seq<u8>| extends(w, prefix) implies (holds(children, w)
                    <==> #[trigger] holds(level, w.skip(prefix.len() as int))) by {
                    assert(w[0] == w.take(prefix.len() as int)[0]);
                    lemma_unique_child(children, i, w);
                    let rest = w.drop_first();
                    assert(rest.take(tail.len() as int) =~= tail);
                    assert(extends(rest, tail));
                    assert(rest.skip(tail.len() as int) =~= w.skip(prefix.len() as int));
                    assert(node_holds(children[i], w) == holds(below, rest));
                    assert(holds(below, rest) <==> holds(level, rest.skip(tail.len() as int)));
                }
            },
            None => {
                lemma_unique_child(children, i, prefix);
                if prefix.len() > 1 {
                    assert(extends(tail, Seq::<u8>::empty())) by {
                        assert(tail.take(0) =~= Seq::<u8>::empty());
                    }
                    assert(node_holds(children[i], prefix) == holds(below, tail));
                } else {
                    assert(tail.len() == 0);
                }
                assert forall|w: Seq<u8>| extends(w, prefix) implies !#[trigger] holds(
                    children,
                    w,
                ) by {
                    assert(w[0] == w.take(prefix.len() as int)[0]);
                    lemma_unique_child(children, i, w);
                    let rest = w.drop_first();
                    assert(rest.take(tail.len() as int) =~= tail);
                    assert(extends(rest, tail));
                    assert(node_holds(children[i], w) == holds(below, rest));
                }
            },
        }
    } else {
        assert(!holds(children, prefix)) by {
            if holds(children, prefix) {
                let i = choose|i: int|
                    0 <= i < children.len() && node_holds(#[trigger] children[i], prefix);
                assert(children[i].data == prefix[0]);
            }
        }
        assert forall|w: Seq<u8>| extends(w, prefix) implies !#[trigger] holds(children, w) by {
            assert(w[0] == w.take(prefix.len() as int)[0]);
            if holds(children, w) {
                let i = choose|i: int| 0 <= i < children.len() && node_holds(#[trigger] children[i], w);
                assert(children[i].data == prefix[0]);
            }
        }
    }
}

/// The names that start with `prefix` are listed once each, and nothing else is.
proof fn lemma_matches(children: Seq<PrefixNode>, prefix: Seq<u8>)
    requires
        distinct_siblings(children),
    ensures
        matches(children, prefix).no_duplicates(),
        forall|w: Seq<u8>| #[trigger]
            matches(children, prefix).contains(w) <==> holds(children, w) && prefix.is_prefix_of(w),
{
    let n = prefix.len() as int;
    let all = matches(children, prefix);
    lemma_descend(children, prefix);
    match descend(children, prefix) {
        Some(level) => {
            lemma_listing(level, prefix);
            let own = if holds(children, prefix) {
                seq![prefix]
            } else {
                Seq::empty()
            };
            let below = listing(level, prefix);
            assert(all == own + below);
            assert forall|w: Seq<u8>| #[trigger]
                all.contains(w) <==> holds(children, w) && prefix.is_prefix_of(w) by {
                if all.contains(w) {
                    let k = choose|k: int| 0 <= k < all.len() && all[k] == w;
                    if k < own.len() {
                        assert(w == prefix);
                        assert(prefix =~= prefix.subrange(0, n));
                    } else {
                        assert(below[k - own.len()] == w);
                        assert(below.contains(w));
                        assert(holds(level, w.skip(n)));
                        assert(w.take(n) =~= w.subrange(0, n));
                    }
                }
                if holds(children, w) && prefix.is_prefix_of(w) {
                    assert(w.take(n) =~= w.subrange(0, n));
                    if w.len() == n {
                        assert(w =~= prefix);
                        assert(all[0] == w);
                    } else {
                        assert(extends(w, prefix));
                        assert(holds(level, w.skip(n)));
                        assert(below.contains(w));
                        let k = choose|k: int| 0 <= k < below.len() && below[k] == w;
                        assert(all[own.len() + k] == w);
                    }
                }
            }
            assert(all.no_duplicates()) by {
                assert forall|i: int, j: int|
                    0 <= i < own.len() && 0 <= j < below.len() implies own[i] != below[j] by {
                    assert(below.contains(below[j]));
                }
                vstd::seq_lib::lemma_no_dup_in_concat(own, below);
            }
        },
        None => {
            assert forall|w: Seq<u8>| #[trigger]
                all.contains(w) <==> holds(children, w) && prefix.is_prefix_of(w) by {
                if holds(children, w) && prefix.is_prefix_of(w) {
                    assert(w.take(n) =~= w.subrange(0, n));
                    if w.len() == n {
                        assert(w =~= prefix);
                    } else {
                        assert(extends(w, prefix));
                    }
                }
            }
        },
    }
}

/// The bytes of each row.
spec fn rows(lists: Seq<Vec<u8>>) -> Seq<Seq<u8>> {
    Seq::new(lists.len(), |i: int| lists[i]@)
}

/// Appends the names below `children`, each after `prefix`, to `results`.
fn collect(children: &Vec<PrefixNode>, prefix: &mut Vec<u8>, results: &mut Vec<Vec<u8>>)
    ensures
        final(prefix)@ == old(prefix)@,
        rows(final(results)@) == rows(old(results)@) + listing(children@, old(prefix)@),
    decreases children,
{
    let mut i: usize = children.len();
    assert(children@.take(i as int) =~= children@);
    while i > 0
        invariant
            i <= children.len(),
            prefix@ == old(prefix)@,
            rows(results@) + listing(children@.take(i as int), prefix@) == rows(old(results)@)
                + listing(children@, prefix@),
        decreases i,
    {
        i = i - 1;
        let node = &children[i];
        let ghost upto = children@.take(i + 1);
        let ghost before = rows(results@);
        proof {
            assert(upto.last() == *node);
            assert(upto.drop_last() =~= children@.take(i as int));
            assert(listing(upto, prefix@) == node_listing(*node, prefix@) + listing(
                children@.take(i as int),
                prefix@,
            ));
        }
        prefix.push(node.data);
        if node.is_end {
            let ghost earlier = results@;
            results.push(prefix.clone());
            assert(rows(results@) =~= rows(earlier).push(prefix@));
        }
        collect(&node.children, prefix, results);
        prefix.pop();
        proof {
            assert(prefix@ =~= old(prefix)@);
            assert(rows(results@) =~= before + node_listing(*node, prefix@));
            assert(rows(results@) + listing(children@.take(i as int), prefix@) =~= before
                + listing(upto, prefix@));
        }
    }
    assert(listing(children@.take(0), prefix@) =~= Seq::<Seq<u8>>::empty());
    assert(rows(results@) + Seq::<Seq<u8>>::empty() =~= rows(results@));
}

/// `String::from_utf8_lossy` of the standard library, taken on trust: bytes
/// that are valid UTF-8 are turned into the string that they encode. Nothing
/// is claimed of other bytes.
#[verifier::external_body]
fn text_of(bytes: &Vec<u8>) -> (text: String)
    ensures
        valid_utf8(bytes@) ==> text@ == decode_utf8(bytes@),
{
    String::from_utf8_lossy(bytes).into_owned()
}

/// The bytes of each string.
pub open spec fn names(strings: Seq<String>) -> Seq<Seq<u8>> {
    Seq::new(strings.len(), |i: int| encode_utf8(strings[i]@))
}

/// A set of names, kept by their bytes in a prefix tree.
#[derive(Debug)]
pub struct PrefixTree {
    root_children: Vec<PrefixNode>,
}

impl View for PrefixTree {
    type V = Set<Seq<u8>>;

    closed spec fn view(&self) -> Set<Seq<u8>> {
        Set::new(|w: Seq<u8>| holds(self.root_children@, w))
    }
}

impl PrefixTree {
    /// No two siblings stand for the same byte, and every name is valid UTF-8.
    pub closed spec fn wf(&self) -> bool {
        &&& distinct_siblings(self.root_children@)
        &&& forall|w: Seq<u8>| holds(self.root_children@, w) ==> valid_utf8(w)
    }

    /// The names that start with `prefix`, in the order in which
    /// [`PrefixTree::starts_with`] hands them out.
    pub closed spec fn matching(&self, prefix: Seq<u8>) -> Seq<Seq<u8>> {
        matches(self.root_children@, prefix)
    }

    /// [`PrefixTree::matching`] lists each name that starts with `prefix`
    /// once, and nothing else.
    pub proof fn lemma_matching(&self, prefix: Seq<u8>)
        requires
            self.wf(),
        ensures
            self.matching(prefix).no_duplicates(),
            forall|w: Seq<u8>| #[trigger]
                self.matching(prefix).contains(w) <==> self@.contains(w) && prefix.is_prefix_of(w),
    {
        lemma_matches(self.root_children@, prefix);
    }

    /// The tree without names.
    pub fn new() -> (tree: PrefixTree)
        ensures
            tree.wf(),
            tree@ == Set::<Seq<u8>>::empty(),
    {
        let tree = PrefixTree { root_children: Vec::new() };
        assert(tree@ =~= Set::<Seq<u8>>::empty());
        tree
    }

    /// Adds the name `items`. The empty name is not kept. The result is always `Ok`.
    pub fn add(&mut self, items: &str) -> (r: Result<(), &'static str>)
        requires
            old(self).wf(),
        ensures
            final(self).wf(),
            r is Ok,
            final(self)@ == (if items.spec_bytes().len() == 0 {
                old(self)@
            } else {
                old(self)@.insert(items.spec_bytes())
            }),
    {
        broadcast use encode_utf8_valid_utf8;

        let bytes = items.as_bytes();
        if bytes.len() > 0 {
            insert(&mut self.root_children, bytes, 0);
            assert(bytes@.skip(0) =~= bytes@);
            assert(self@ =~= old(self)@.insert(items.spec_bytes()));
        }
        Ok(())
    }

    /// The names that start with `input`, or `None` when there is none.
    pub fn starts_with(&self, input: &str) -> (r: Option<Vec<String>>)
        requires
            self.wf(),
        ensures
            match r {
                Some(found) => found.len() > 0 && names(found@) == self.matching(
                    input.spec_bytes(),
                ),
                None => self.matching(input.spec_bytes()).len() == 0,
            },
    {
        let bytes = input.as_bytes();
        let ghost root = self.root_children@;
        let mut children = &self.root_children;
        let mut ends_here = false;
        let mut i: usize = 0;
        assert(bytes@.skip(0) =~= bytes@);
        while i < bytes.len()
            invariant
                i <= bytes.len(),
                bytes@ == input.spec_bytes(),
                root == self.root_children@,
                distinct_siblings(root),
                distinct_siblings(children@),
                descend(root, bytes@) == descend(children@, bytes@.skip(i as int)),
                i < bytes.len() ==> (holds(root, bytes@) <==> holds(
                    children@,
                    bytes@.skip(i as int),
                )),
                i == bytes.len() && i > 0 ==> ends_here == holds(root, bytes@),
                i == 0 ==> !ends_here,
            decreases bytes.len() - i,
        {
            let ghost rest = bytes@.skip(i as int);
            assert(rest[0] == bytes[i as int]);
            assert(rest.drop_first() =~= bytes@.skip(i + 1));
            match position(children, bytes[i]) {
                Some(index) => {
                    let node = &children[index];
                    proof {
                        lemma_unique_child(children@, index as int, rest);
                        let k = choose|k: int|
                            0 <= k < children@.len() && (#[trigger] children@[k]).data == rest[0];
                        assert(k == index);
                        assert(descend(children@, rest) == descend(
                            node.children@,
                            rest.drop_first(),
                        ));
                        assert(node_holds(*node, rest) == (if rest.len() == 1 {
                            node.is_end
                        } else {
                            holds(node.children@, rest.drop_first())
                        }));
                    }
                    if i + 1 == bytes.len() {
                        ends_here = node.is_end;
                    }
                    children = &node.children;
                    i = i + 1;
                },
                None => {
                    assert(descend(children@, rest) is None);
                    return None;
                },
            }
        }
        assert(bytes@.skip(bytes.len() as int) =~= Seq::<u8>::empty());
        assert(descend(root, bytes@) == Some(children@));
        let mut found: Vec<Vec<u8>> = Vec::new();
        let mut prefix = input.as_bytes_vec();
        assert(prefix@ == bytes@);
        if ends_here {
            let copy = prefix.clone();
            assert(copy@ == prefix@);
            found.push(copy);
            assert(rows(found@)[0] == bytes@);
        }
        assert(rows(found@).len() == found@.len());
        proof {
            if bytes.len() == 0 {
                assert(!holds(root, bytes@)) by {
                    if holds(root, bytes@) {
                        let k = choose|k: int|
                            0 <= k < root.len() && node_holds(#[trigger] root[k], bytes@);
                    }
                }
            }
            assert(rows(found@) =~= (if holds(root, bytes@) {
                seq![bytes@]
            } else {
                Seq::empty()
            }));
        }
        collect(children, &mut prefix, &mut found);
        assert(rows(found@) == self.matching(bytes@));
        if found.len() == 0 {
            return None;
        }
        let mut results: Vec<String> = Vec::new();
        let mut k: usize = 0;
        proof {
            self.lemma_matching(bytes@);
        }
        while k < found.len()
            invariant
                k <= found.len(),
                results.len() == k,
                rows(found@) == self.matching(bytes@),
                forall|w: Seq<u8>| self.matching(bytes@).contains(w) ==> valid_utf8(w),
                forall|j: int| 0 <= j < k ==> encode_utf8(#[trigger] results@[j]@) == found@[j]@,
            decreases found.len() - k,
        {
            proof {
                assert(rows(found@)[k as int] == found@[k as int]@);
                assert(self.matching(bytes@).contains(found@[k as int]@));
                decode_utf8_encode_utf8(found@[k as int]@);
            }
            results.push(text_of(&found[k]));
            k = k + 1;
        }
        assert(names(results@) =~= rows(found@));
        Some(results)
    }
}

/// `a` comes before `b` or equals it, bytes compared one by one and a
/// proper prefix coming first.
pub open spec fn ordered(a: Seq<u8>, b: Seq<u8>) -> bool
    decreases a.len(),
{
    if a.len() == 0 {
        true
    } else if b.len() == 0 {
        false
    } else if a[0] != b[0] {
        a[0] < b[0]
    } else {
        ordered(a.drop_first(), b.drop_first())
    }
}

/// Each name comes before the names after it, or equals them.
pub open spec fn sorted(list: Seq<Seq<u8>>) -> bool {
    forall|i: int, j: int| 0 <= i < j < list.len() ==> ordered(list[i], list[j])
}

/// Of two names one comes before the other, or they are equal.
pub proof fn lemma_ordered_total(a: Seq<u8>, b: Seq<u8>)
    ensures
        ordered(a, b) || ordered(b, a),
    decreases a.len(),
{
    if a.len() > 0 && b.len() > 0 && a[0] == b[0] {
        lemma_ordered_total(a.drop_first(), b.drop_first());
    }
}

/// The order of names is transitive.
pub proof fn lemma_ordered_transitive(a: Seq<u8>, b: Seq<u8>, c: Seq<u8>)
    requires
        ordered(a, b),
        ordered(b, c),
    ensures
        ordered(a, c),
    decreases a.len(),
{
    if a.len() > 0 && b.len() > 0 && c.len() > 0 && a[0] == b[0] && b[0] == c[0] {
        lemma_ordered_transitive(a.drop_first(), b.drop_first(), c.drop_first());
    }
}

/// Whether the text `a` comes before the text `b` or equals it.
fn precedes(a: &str, b: &str) -> (r: bool)
    ensures
        r == ordered(a.spec_bytes(), b.spec_bytes()),
{
    let left = a.as_bytes();
    let right = b.as_bytes();
    let mut i: usize = 0;
    assert(left@.skip(0) =~= left@);
    assert(right@.skip(0) =~= right@);
    loop
        invariant
            i <= left.len(),
            i <= right.len(),
            left@ == a.spec_bytes(),
            right@ == b.spec_bytes(),
            ordered(left@, right@) == ordered(left@.skip(i as int), right@.skip(i as int)),
        decreases left.len() - i,
    {
        if i == left.len() {
            return true;
        }
        if i == right.len() {
            return false;
        }
        proof {
            assert(left@.skip(i as int)[0] == left[i as int]);
            assert(right@.skip(i as int)[0] == right[i as int]);
            assert(left@.skip(i as int).drop_first() =~= left@.skip(i + 1));
            assert(right@.skip(i as int).drop_first() =~= right@.skip(i + 1));
        }
        if left[i] != right[i] {
            return left[i] < right[i];
        }
        i = i + 1;
    }
}

/// The same strings in the order of their bytes.
pub fn sort(items: Vec<String>) -> (result: Vec<String>)
    ensures
        sorted(names(result@)),
        names(result@).to_multiset() == names(items@).to_multiset(),
{
    broadcast use vstd::multiset::group_multiset_axioms;

    let mut rest = items;
    let mut result: Vec<String> = Vec::new();
    proof {
        assert(names(result@) =~= Seq::<Seq<u8>>::empty());
        names(result@).to_multiset_ensures();
        assert(names(result@).to_multiset().add(names(rest@).to_multiset()) =~= names(
            items@,
        ).to_multiset());
    }
    while rest.len() > 0
        invariant
            sorted(names(result@)),
            names(result@).to_multiset().add(names(rest@).to_multiset()) == names(
                items@,
            ).to_multiset(),
        decreases rest.len(),
    {
        let ghost pending = names(rest@);
        let ghost placed = names(result@);
        let item = rest.pop().unwrap();
        let ghost name = encode_utf8(item@);
        proof {
            assert(names(rest@) =~= pending.drop_last());
            assert(pending =~= names(rest@).push(name));
            vstd::seq_lib::to_multiset_build(names(rest@), name);
        }
        let mut k: usize = 0;
        while k < result.len() && precedes(result[k].as_str(), item.as_str())
            invariant
                k <= result.len(),
                name == encode_utf8(item@),
                forall|j: int| 0 <= j < k ==> ordered(names(result@)[j], name),
            decreases result.len() - k,
        {
            k = k + 1;
        }
        proof {
            if k < result.len() {
                assert(names(result@)[k as int] == encode_utf8(result@[k as int]@));
                lemma_ordered_total(names(result@)[k as int], name);
            }
            assert forall|j: int| k <= j < placed.len() implies ordered(name, placed[j]) by {
                if j > k {
                    lemma_ordered_transitive(name, placed[k as int], placed[j]);
                }
            }
        }
        result.insert(k, item);
        proof {
            assert(names(result@) =~= placed.insert(k as int, name));
            vstd::seq_lib::to_multiset_insert(placed, k as int, name);
            assert(names(result@).to_multiset().add(names(rest@).to_multiset()) =~= placed.to_multiset().add(
                pending.to_multiset(),
            ));
            assert forall|i: int, j: int| 0 <= i < j < names(result@).len() implies ordered(
                names(result@)[i],
                names(result@)[j],
            ) by {
                let now = names(result@);
                if j < k {
                    assert(now[i] == placed[i] && now[j] == placed[j]);
                } else if j == k {
                    assert(now[i] == placed[i]);
                } else if i < k {
                    assert(now[i] == placed[i] && now[j] == placed[j - 1]);
                } else if i == k {
                    assert(now[j] == placed[j - 1]);
                } else {
                    assert(now[i] == placed[i - 1] && now[j] == placed[j - 1]);
                }
            }
        }
    }
    proof {
        assert(names(rest@) =~= Seq::<Seq<u8>>::empty());
        names(rest@).to_multiset_ensures();
        assert(names(result@).to_multiset().add(names(rest@).to_multiset()) =~= names(
            result@,
        ).to_multiset());
    }
    result
}

/// The end of a valid prefix of a valid text falls between two characters of the text.
proof fn lemma_prefix_ends_at_boundary(prefix: Seq<u8>, text: Seq<u8>)
    requires
        valid_utf8(prefix),
        valid_utf8(text),
        prefix.is_prefix_of(text),
    ensures
        is_char_boundary(text, prefix.len() as int),
    decreases prefix.len(),
{
    if prefix.len() > 0 {
        let width = length_of_first_scalar(prefix);
        assert(prefix[0] == text.subrange(0, prefix.len() as int)[0]);
        assert(width == length_of_first_scalar(text));
        assert(width <= prefix.len());
        let prefix_tail = pop_first_scalar(prefix);
        let text_tail = pop_first_scalar(text);
        assert(prefix_tail.is_prefix_of(text_tail)) by {
            assert forall|i: int| 0 <= i < prefix_tail.len() implies prefix_tail[i]
                == text_tail.subrange(0, prefix_tail.len() as int)[i] by {
                assert(prefix_tail[i] == prefix[i + width]);
                assert(prefix[i + width] == text.subrange(0, prefix.len() as int)[i + width]);
            }
        }
        lemma_prefix_ends_at_boundary(prefix_tail, text_tail);
    }
}

/// A place between two characters of a valid prefix of a valid text is
/// also a place between two characters of the text.
proof fn lemma_boundary_carries_over(prefix: Seq<u8>, text: Seq<u8>, pos: int)
    requires
        valid_utf8(prefix),
        valid_utf8(text),
        prefix.is_prefix_of(text),
        is_char_boundary(prefix, pos),
    ensures
        is_char_boundary(text, pos),
{
    if pos != 0 {
        assert(0 < pos <= prefix.len());
        if pos < prefix.len() {
            is_char_boundary_iff_not_is_continuation_byte(prefix, pos);
            is_char_boundary_iff_not_is_continuation_byte(text, pos);
            assert(prefix[pos] == text.subrange(0, prefix.len() as int)[pos]);
        } else {
            lemma_prefix_ends_at_boundary(prefix, text);
        }
    }
}

/// One proposal for completing a line.
#[derive(Debug, Clone, PartialEq, Eq)]
pub struct Candidate {
    /// The text shown to the user.
    pub display: String,
    /// The text that replaces the line from the cursor on.
    pub replacement: String,
}

/// The bytes of the text that each candidate shows.
pub open spec fn displays(candidates: Seq<Candidate>) -> Seq<Seq<u8>> {
    Seq::new(candidates.len(), |i: int| encode_utf8(candidates[i].display@))
}

/// The names among `commands`, the empty name left out.
pub open spec fn name_set(commands: Seq<&str>) -> Set<Seq<u8>> {
    Set::new(
        |w: Seq<u8>|
            w.len() > 0 && exists|i: int|
                0 <= i < commands.len() && (#[trigger] commands[i]).spec_bytes() == w,
    )
}

/// Completes the first word of a line from a set of known command names.
#[derive(Debug)]
pub struct CommandCompleter {
    knowledge_base: PrefixTree,
}

impl View for CommandCompleter {
    type V = Set<Seq<u8>>;

    closed spec fn view(&self) -> Set<Seq<u8>> {
        self.knowledge_base@
    }
}

impl CommandCompleter {
    /// The invariant of the names kept: see [`PrefixTree::wf`].
    pub closed spec fn wf(&self) -> bool {
        self.knowledge_base.wf()
    }

    /// The known names that start with `prefix`, in the order of the tree.
    pub closed spec fn matching(&self, prefix: Seq<u8>) -> Seq<Seq<u8>> {
        self.knowledge_base.matching(prefix)
    }

    /// [`CommandCompleter::matching`] lists each known name that starts with
    /// `prefix` once, and nothing else.
    pub proof fn lemma_matching(&self, prefix: Seq<u8>)
        requires
            self.wf(),
        ensures
            self.matching(prefix).no_duplicates(),
            forall|w: Seq<u8>| #[trigger]
                self.matching(prefix).contains(w) <==> self@.contains(w) && prefix.is_prefix_of(w),
    {
        self.knowledge_base.lemma_matching(prefix);
    }

    /// A completer that knows the names `commands`.
    pub fn new(commands: &[&str]) -> (completer: CommandCompleter)
        ensures
            completer.wf(),
            completer@ == name_set(commands@),
    {
        let mut completer = CommandCompleter { knowledge_base: PrefixTree::new() };
        assert(name_set(commands@) =~= Set::<Seq<u8>>::empty().union(name_set(commands@)));
        let _ = completer.add_commands(commands);
        completer
    }

    /// Makes the names `commands` known as well. The result is always `Ok`.
    pub fn add_commands(&mut self, commands: &[&str]) -> (r: Result<(), &'static str>)
        requires
            old(self).wf(),
        ensures
            final(self).wf(),
            r is Ok,
            final(self)@ == old(self)@.union(name_set(commands@)),
    {
        let mut i: usize = 0;
        assert(self@ =~= old(self)@.union(name_set(commands@.take(0))));
        while i < commands.len()
            invariant
                i <= commands.len(),
                self.wf(),
                self@ == old(self)@.union(name_set(commands@.take(i as int))),
            decreases commands.len() - i,
        {
            let ghost before = self@;
            let _ = self.knowledge_base.add(commands[i]);
            proof {
                let upto = commands@.take(i as int);
                let next = commands@.take(i + 1);
                let name = commands@[i as int].spec_bytes();
                assert forall|w: Seq<u8>| #[trigger]
                    name_set(next).contains(w) <==> name_set(upto).contains(w) || (w.len() > 0
                        && w == name) by {
                    if name_set(next).contains(w) {
                        let k = choose|k: int|
                            0 <= k < next.len() && (#[trigger] next[k]).spec_bytes() == w;
                        if k < i {
                            assert(upto[k].spec_bytes() == w);
                        }
                    }
                    if name_set(upto).contains(w) {
                        let k = choose|k: int|
                            0 <= k < upto.len() && (#[trigger] upto[k]).spec_bytes() == w;
                        assert(next[k].spec_bytes() == w);
                    }
                    if w.len() > 0 && w == name {
                        assert(next[i as int].spec_bytes() == w);
                    }
                }
                assert(self@ =~= old(self)@.union(name_set(next)));
            }
            i = i + 1;
        }
        assert(commands@.take(commands.len() as int) =~= commands@);
        Ok(())
    }

    /// Proposes completions of `line`, the cursor standing at the byte `pos`.
    ///
    /// The proposals are the known names that start with `line`, in the
    /// order of their bytes. Each one is shown whole, and replaces the line
    /// from the cursor on by what follows `pos` in it and one space. Where
    /// no known name starts with `line`, the one proposal shows nothing and
    /// rings the bell.
    pub fn complete(&self, line: &str, pos: usize) -> (r: (usize, Vec<Candidate>))
        requires
            self.wf(),
            is_char_boundary(line.spec_bytes(), pos as int),
        ensures
            r.0 == pos,
            self.matching(line.spec_bytes()).len() == 0 ==> {
                &&& r.1@.len() == 1
                &&& r.1@[0].display@ == Seq::<char>::empty()
                &&& r.1@[0].replacement@ == seq!['\u{7}']
            },
            self.matching(line.spec_bytes()).len() > 0 ==> {
                &&& sorted(displays(r.1@))
                &&& displays(r.1@).to_multiset() == self.matching(line.spec_bytes()).to_multiset()
                &&& forall|i: int|
                    0 <= i < r.1@.len() ==> (#[trigger] r.1@[i]).replacement@ == decode_utf8(
                        displays(r.1@)[i].skip(pos as int),
                    ).push(' ')
            },
    {
        match self.knowledge_base.starts_with(line) {
            Some(results) => {
                let ghost found = self.matching(line.spec_bytes());
                let results = sort(results);
                proof {
                    self.lemma_matching(line.spec_bytes());
                    found.to_multiset_ensures();
                    names(results@).to_multiset_ensures();
                }
                let mut candidates: Vec<Candidate> = Vec::new();
                let mut i: usize = 0;
                while i < results.len()
                    invariant
                        i <= results.len(),
                        candidates.len() == i,
                        found == self.matching(line.spec_bytes()),
                        names(results@).to_multiset() == found.to_multiset(),
                        forall|w: Seq<u8>| #[trigger]
                            found.contains(w) ==> line.spec_bytes().is_prefix_of(w),
                        is_char_boundary(line.spec_bytes(), pos as int),
                        forall|j: int|
                            0 <= j < i ==> (#[trigger] candidates@[j]).display@ == results@[j]@,
                        forall|j: int|
                            0 <= j < i ==> (#[trigger] candidates@[j]).replacement@ == decode_utf8(
                                encode_utf8(results@[j]@).skip(pos as int),
                            ).push(' '),
                    decreases results.len() - i,
                {
                    let ghost name = encode_utf8(results@[i as int]@);
                    proof {
                        assert(names(results@)[i as int] == name);
                        assert(names(results@).contains(name));
                        vstd::seq_lib::to_multiset_contains(names(results@), name);
                        vstd::seq_lib::to_multiset_contains(found, name);
                        assert(found.contains(name));
                        encode_utf8_valid_utf8(line@);
                        encode_utf8_valid_utf8(results@[i as int]@);
                        lemma_boundary_carries_over(line.spec_bytes(), name, pos as int);
                    }
                    let display = results[i].clone();
                    let (_, tail) = results[i].as_str().split_at(pos);
                    let mut replacement = tail.to_owned();
                    replacement.push(' ');
                    proof {
                        assert(name.subrange(pos as int, name.len() as int) =~= name.skip(
                            pos as int,
                        ));
                        encode_utf8_decode_utf8(tail@);
                        assert(tail@ == decode_utf8(encode_utf8(tail@)));
                    }
                    candidates.push(Candidate { display, replacement });
                    i = i + 1;
                }
                assert(displays(candidates@) =~= names(results@));
                (pos, candidates)
            },
            None => {
                let mut replacement = String::new();
                replacement.push('\u{7}');
                assert(replacement@ =~= seq!['\u{7}']);
                let mut candidates: Vec<Candidate> = Vec::new();
                candidates.push(Candidate { display: String::new(), replacement });
                (pos, candidates)
            },
        }
    }
}

} // verus!
