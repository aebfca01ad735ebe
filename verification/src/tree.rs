use vstd::prelude::*;

use crate::walk::{
    advance_spec, initial_spec, on_detect_spec, on_listed_spec, ActionView, EntryView, MessageView,
    PendingView, WalkerView,
};

verus! {

/// A tree of paths, as a walk sees a file system: a directory lists its
/// entries in the order that listing it gives them.
pub enum FsNode {
    File(Seq<char>),
    Dir(Seq<char>, Seq<FsNode>),
}

pub open spec fn node_entry(node: FsNode) -> EntryView {
    match node {
        FsNode::File(p) => EntryView { path: p, is_dir: false },
        FsNode::Dir(p, _) => EntryView { path: p, is_dir: true },
    }
}

pub open spec fn node_entries(nodes: Seq<FsNode>) -> Seq<EntryView> {
    nodes.map_values(|node: FsNode| node_entry(node))
}

pub open spec fn node_children(node: FsNode) -> Seq<FsNode> {
    match node {
        FsNode::File(_) => Seq::empty(),
        FsNode::Dir(_, children) => children,
    }
}

/// The first category, from `i` on and below `n`, whose detection succeeds
/// on `path`.
pub open spec fn first_match_from(
    path: Seq<char>,
    detect: spec_fn(Seq<char>, nat) -> bool,
    i: nat,
    n: nat,
) -> Option<nat>
    decreases n - i,
{
    if i < n {
        if detect(path, i) {
            Some(i)
        } else {
            first_match_from(path, detect, i + 1, n)
        }
    } else {
        None
    }
}

/// The first of `n` categories whose detection succeeds on `path`.
pub open spec fn first_match(path: Seq<char>, detect: spec_fn(Seq<char>, nat) -> bool, n: nat) -> Option<nat> {
    first_match_from(path, detect, 0, n)
}

/// What a walk reports of a tree: a file is reported as such; a directory
/// is reported with the first category that it matches, and its contents
/// are then left alone; a directory that matches no category is not
/// reported itself, its entries are walked in turn.
pub open spec fn walk_node(node: FsNode, detect: spec_fn(Seq<char>, nat) -> bool, n: nat) -> Seq<
    MessageView,
>
    decreases node,
{
    match node {
        FsNode::File(p) => seq![MessageView::MiscFile(p)],
        FsNode::Dir(p, children) => match first_match(p, detect, n) {
            Some(i) => seq![MessageView::CategorizedDir(i, p)],
            None => walk_forest(children, detect, n),
        },
    }
}

/// What a walk reports of a sequence of trees, one after the other.
pub open spec fn walk_forest(
    nodes: Seq<FsNode>,
    detect: spec_fn(Seq<char>, nat) -> bool,
    n: nat,
) -> Seq<MessageView>
    decreases nodes,
{
    if nodes.len() == 0 {
        Seq::empty()
    } else {
        proof {
            assert(decreases_to!(nodes => nodes[0]));
            assert(decreases_to!(nodes => nodes.subrange(1, nodes.len() as int)));
        }
        walk_node(nodes[0], detect, n) + walk_forest(nodes.subrange(1, nodes.len() as int), detect, n)
    }
}

/// The nodes left on the stack of the tree once `Walker::next_action` has
/// taken off the files on top and the directory below them, if any.
pub open spec fn advance_nodes(nodes: Seq<FsNode>) -> (Seq<FsNode>, Option<FsNode>)
    decreases nodes.len(),
{
    if nodes.len() == 0 {
        (nodes, None)
    } else if nodes.last() is File {
        advance_nodes(nodes.drop_last())
    } else {
        (nodes.drop_last(), Some(nodes.last()))
    }
}

/// Runs a walk for at most `fuel` requests, answering each of them from a
/// tree: a detection by `detect`, a listing by the entries of the directory
/// being listed. `nodes` are the trees on the walk's stack, `current` the
/// directory its pending request is about. The result is the walk's
/// messages once it says it is finished, and `None` if `fuel` runs out
/// first.
pub open spec fn drive(
    w: WalkerView,
    nodes: Seq<FsNode>,
    current: Option<FsNode>,
    detect: spec_fn(Seq<char>, nat) -> bool,
    fuel: nat,
) -> Option<Seq<MessageView>>
    decreases fuel,
{
    if fuel == 0 {
        None
    } else {
        let (w1, action) = advance_spec(w);
        let (nodes1, current1) = if w.pending is Idle {
            advance_nodes(nodes)
        } else {
            (nodes, current)
        };
        match action {
            ActionView::Finished => Some(w1.messages),
            ActionView::Detect(p, i) => {
                let success = detect(p, i);
                drive(
                    on_detect_spec(w1, success),
                    nodes1,
                    if success {
                        None
                    } else {
                        current1
                    },
                    detect,
                    (fuel - 1) as nat,
                )
            },
            ActionView::List(_) => {
                let children = node_children(current1.unwrap());
                drive(
                    on_listed_spec(w1, node_entries(children)),
                    nodes1 + children.reverse(),
                    None,
                    detect,
                    (fuel - 1) as nat,
                )
            },
        }
    }
}

/// What the walk still owes for its pending request.
pub open spec fn pending_output(
    w: WalkerView,
    current: Option<FsNode>,
    detect: spec_fn(Seq<char>, nat) -> bool,
) -> Seq<MessageView> {
    match w.pending {
        PendingView::Idle => Seq::empty(),
        PendingView::Detecting(_, _) => walk_node(current.unwrap(), detect, w.n_categories),
        PendingView::Listing(_) => walk_forest(
            node_children(current.unwrap()),
            detect,
            w.n_categories,
        ),
    }
}

/// What the walk still owes: its pending request, then its stack from the
/// top down.
pub open spec fn remaining(
    w: WalkerView,
    nodes: Seq<FsNode>,
    current: Option<FsNode>,
    detect: spec_fn(Seq<char>, nat) -> bool,
) -> Seq<MessageView> {
    pending_output(w, current, detect) + walk_forest(nodes.reverse(), detect, w.n_categories)
}

/// The walk's stack holds the entries of `nodes`, and its pending request is
/// about `current`, with the categories already tried not matching.
pub open spec fn corresponds(
    w: WalkerView,
    nodes: Seq<FsNode>,
    current: Option<FsNode>,
    detect: spec_fn(Seq<char>, nat) -> bool,
) -> bool {
    &&& w.stack == node_entries(nodes)
    &&& match w.pending {
        PendingView::Idle => current is None,
        PendingView::Detecting(p, i) => {
            &&& current matches Some(FsNode::Dir(q, _))
            &&& q == p
            &&& i < w.n_categories
            &&& first_match(p, detect, w.n_categories) == first_match_from(
                p,
                detect,
                i,
                w.n_categories,
            )
        },
        PendingView::Listing(p) => {
            &&& current matches Some(FsNode::Dir(q, _))
            &&& q == p
            &&& first_match(p, detect, w.n_categories) is None
        },
    }
}

proof fn lemma_forest_append(
    a: Seq<FsNode>,
    b: Seq<FsNode>,
    detect: spec_fn(Seq<char>, nat) -> bool,
    n: nat,
)
    ensures
        walk_forest(a + b, detect, n) == walk_forest(a, detect, n) + walk_forest(b, detect, n),
    decreases a.len(),
{
    if a.len() == 0 {
        assert(a + b =~= b);
        assert(walk_forest(a, detect, n) + walk_forest(b, detect, n) =~= walk_forest(b, detect, n));
    } else {
        let ab = a + b;
        let rest = a.subrange(1, a.len() as int);
        assert(ab[0] == a[0]);
        assert(ab.subrange(1, ab.len() as int) =~= rest + b);
        lemma_forest_append(rest, b, detect, n);
        assert(walk_forest(ab, detect, n) =~= walk_forest(a, detect, n) + walk_forest(b, detect, n));
    }
}

proof fn lemma_forest_reverse_last(
    nodes: Seq<FsNode>,
    detect: spec_fn(Seq<char>, nat) -> bool,
    n: nat,
)
    requires
        nodes.len() > 0,
    ensures
        walk_forest(nodes.reverse(), detect, n) == walk_node(nodes.last(), detect, n)
            + walk_forest(nodes.drop_last().reverse(), detect, n),
{
    let r = nodes.reverse();
    assert(r.len() == nodes.len());
    assert(r[0] == nodes.last());
    assert(r.subrange(1, r.len() as int) =~= nodes.drop_last().reverse());
}

proof fn lemma_advance(w: WalkerView, nodes: Seq<FsNode>, detect: spec_fn(Seq<char>, nat) -> bool)
    requires
        w.pending is Idle,
        corresponds(w, nodes, None, detect),
    ensures
        ({
            let (w1, action) = advance_spec(w);
            let (nodes1, current1) = advance_nodes(nodes);
            &&& w1.n_categories == w.n_categories
            &&& corresponds(w1, nodes1, current1, detect)
            &&& w1.messages + remaining(w1, nodes1, current1, detect) == w.messages + remaining(
                w,
                nodes,
                None,
                detect,
            )
            &&& (action is Finished <==> w1.pending is Idle)
            &&& (action is Finished ==> nodes1.len() == 0)
            &&& (action matches ActionView::Detect(p, i) ==> w1.pending == PendingView::Detecting(
                p,
                i,
            ))
            &&& (action matches ActionView::List(p) ==> w1.pending == PendingView::Listing(p))
        }),
    decreases nodes.len(),
{
    let n = w.n_categories;
    if nodes.len() == 0 {
        assert(nodes.reverse() =~= Seq::<FsNode>::empty());
        assert(w.messages + remaining(w, nodes, None, detect) =~= w.messages);
    } else {
        lemma_forest_reverse_last(nodes, detect, n);
        let last = nodes.last();
        assert(w.stack.last() == node_entry(last));
        assert(w.stack.drop_last() =~= node_entries(nodes.drop_last()));
        let rest = WalkerView { stack: w.stack.drop_last(), ..w };
        match last {
            FsNode::File(p) => {
                let w2 = WalkerView { messages: w.messages.push(MessageView::MiscFile(p)), ..rest };
                lemma_advance(w2, nodes.drop_last(), detect);
                assert(w2.messages + remaining(w2, nodes.drop_last(), None, detect)
                    =~= w.messages + remaining(w, nodes, None, detect));
            },
            FsNode::Dir(p, children) => {
                let (w1, action) = advance_spec(w);
                assert(w1.messages + remaining(w1, nodes.drop_last(), Some(last), detect)
                    =~= w.messages + remaining(w, nodes, None, detect));
            },
        }
    }
}

proof fn lemma_drive(
    w: WalkerView,
    nodes: Seq<FsNode>,
    current: Option<FsNode>,
    detect: spec_fn(Seq<char>, nat) -> bool,
    fuel: nat,
)
    requires
        corresponds(w, nodes, current, detect),
        drive(w, nodes, current, detect, fuel) is Some,
    ensures
        drive(w, nodes, current, detect, fuel) == Some(
            w.messages + remaining(w, nodes, current, detect),
        ),
    decreases fuel,
{
    let n = w.n_categories;
    let (w1, action) = advance_spec(w);
    let (nodes1, current1) = if w.pending is Idle {
        advance_nodes(nodes)
    } else {
        (nodes, current)
    };
    if w.pending is Idle {
        lemma_advance(w, nodes, detect);
    }
    assert(corresponds(w1, nodes1, current1, detect));
    assert(w1.messages + remaining(w1, nodes1, current1, detect) == w.messages + remaining(
        w,
        nodes,
        current,
        detect,
    ));
    match action {
        ActionView::Finished => {
            assert(nodes1.reverse() =~= Seq::<FsNode>::empty());
            assert(w1.messages + remaining(w1, nodes1, current1, detect) =~= w1.messages);
        },
        ActionView::Detect(p, i) => {
            let success = detect(p, i);
            let w2 = on_detect_spec(w1, success);
            let current2 = if success {
                None
            } else {
                current1
            };
            assert(w1.pending == PendingView::Detecting(p, i));
            assert(first_match_from(p, detect, i, n) == if success {
                Some(i)
            } else {
                first_match_from(p, detect, i + 1, n)
            });
            if i + 1 >= n {
                assert(first_match_from(p, detect, i + 1, n) is None);
            }
            assert(corresponds(w2, nodes1, current2, detect));
            lemma_drive(w2, nodes1, current2, detect, (fuel - 1) as nat);
            assert(w2.messages + remaining(w2, nodes1, current2, detect) =~= w1.messages
                + remaining(w1, nodes1, current1, detect));
        },
        ActionView::List(p) => {
            let children = node_children(current1.unwrap());
            let w2 = on_listed_spec(w1, node_entries(children));
            let nodes2 = nodes1 + children.reverse();
            assert(node_entries(nodes2) =~= node_entries(nodes1) + node_entries(children).reverse());
            assert(corresponds(w2, nodes2, None, detect));
            lemma_drive(w2, nodes2, None, detect, (fuel - 1) as nat);
            assert(nodes2.reverse() =~= children + nodes1.reverse());
            lemma_forest_append(children, nodes1.reverse(), detect, n);
            assert(w2.messages + remaining(w2, nodes2, None, detect) =~= w1.messages + remaining(
                w1,
                nodes1,
                current1,
                detect,
            ));
        },
    }
}

/// The walk reports exactly what `walk_forest` says of the trees it walks:
/// whenever a `Walker` started on `roots` is answered from these trees (a
/// detection by `detect`, a listing by the entries of the directory) until
/// it says it is finished, its messages are every file, in listing order,
/// and every directory that matches a category, with the first category it
/// matches, leaving out the contents of such directories and the
/// directories that match no category.
pub proof fn lemma_walk_reports_tree(
    n: nat,
    roots: Seq<FsNode>,
    detect: spec_fn(Seq<char>, nat) -> bool,
    fuel: nat,
)
    requires
        drive(initial_spec(n, node_entries(roots)), roots.reverse(), None, detect, fuel) is Some,
    ensures
        drive(initial_spec(n, node_entries(roots)), roots.reverse(), None, detect, fuel) == Some(
            walk_forest(roots, detect, n),
        ),
{
    let w = initial_spec(n, node_entries(roots));
    assert(node_entries(roots).reverse() =~= node_entries(roots.reverse()));
    assert(corresponds(w, roots.reverse(), None, detect));
    lemma_drive(w, roots.reverse(), None, detect, fuel);
    assert(roots.reverse().reverse() =~= roots);
    assert(w.messages + remaining(w, roots.reverse(), None, detect) =~= walk_forest(roots, detect, n));
}

/// The number of requests a walk makes of a tree with `n` categories, at
/// most: each directory gets at most `n` detections and one listing.
pub open spec fn node_work(node: FsNode, n: nat) -> nat
    decreases node,
{
    match node {
        FsNode::File(_) => 0,
        FsNode::Dir(_, children) => n + 1 + forest_work(children, n),
    }
}

pub open spec fn forest_work(nodes: Seq<FsNode>, n: nat) -> nat
    decreases nodes,
{
    if nodes.len() == 0 {
        0
    } else {
        proof {
            assert(decreases_to!(nodes => nodes[0]));
            assert(decreases_to!(nodes => nodes.subrange(1, nodes.len() as int)));
        }
        node_work(nodes[0], n) + forest_work(nodes.subrange(1, nodes.len() as int), n)
    }
}

/// The requests the walk may still make.
pub open spec fn remaining_work(w: WalkerView, nodes: Seq<FsNode>, current: Option<FsNode>) -> nat {
    let n = w.n_categories;
    let pending: nat = match w.pending {
        PendingView::Idle => 0,
        PendingView::Detecting(_, i) => ((n - i) + 1 + forest_work(
            node_children(current.unwrap()),
            n,
        )) as nat,
        PendingView::Listing(_) => 1 + forest_work(node_children(current.unwrap()), n),
    };
    pending + forest_work(nodes.reverse(), n)
}

proof fn lemma_work_append(a: Seq<FsNode>, b: Seq<FsNode>, n: nat)
    ensures
        forest_work(a + b, n) == forest_work(a, n) + forest_work(b, n),
    decreases a.len(),
{
    if a.len() == 0 {
        assert(a + b =~= b);
    } else {
        let ab = a + b;
        let rest = a.subrange(1, a.len() as int);
        assert(ab[0] == a[0]);
        assert(ab.subrange(1, ab.len() as int) =~= rest + b);
        lemma_work_append(rest, b, n);
    }
}

proof fn lemma_work_reverse_last(nodes: Seq<FsNode>, n: nat)
    requires
        nodes.len() > 0,
    ensures
        forest_work(nodes.reverse(), n) == node_work(nodes.last(), n) + forest_work(
            nodes.drop_last().reverse(),
            n,
        ),
{
    let r = nodes.reverse();
    assert(r[0] == nodes.last());
    assert(r.subrange(1, r.len() as int) =~= nodes.drop_last().reverse());
}

proof fn lemma_advance_work(w: WalkerView, nodes: Seq<FsNode>, detect: spec_fn(Seq<char>, nat) -> bool)
    requires
        w.pending is Idle,
        corresponds(w, nodes, None, detect),
    ensures
        ({
            let (w1, action) = advance_spec(w);
            let (nodes1, current1) = advance_nodes(nodes);
            remaining_work(w1, nodes1, current1) == remaining_work(w, nodes, None)
        }),
    decreases nodes.len(),
{
    let n = w.n_categories;
    if nodes.len() > 0 {
        lemma_work_reverse_last(nodes, n);
        assert(w.stack.last() == node_entry(nodes.last()));
        assert(w.stack.drop_last() =~= node_entries(nodes.drop_last()));
        let rest = WalkerView { stack: w.stack.drop_last(), ..w };
        match nodes.last() {
            FsNode::File(p) => {
                let w2 = WalkerView { messages: w.messages.push(MessageView::MiscFile(p)), ..rest };
                lemma_advance_work(w2, nodes.drop_last(), detect);
            },
            FsNode::Dir(_, _) => {},
        }
    }
}

proof fn lemma_drive_finishes(
    w: WalkerView,
    nodes: Seq<FsNode>,
    current: Option<FsNode>,
    detect: spec_fn(Seq<char>, nat) -> bool,
    fuel: nat,
)
    requires
        corresponds(w, nodes, current, detect),
        fuel > remaining_work(w, nodes, current),
    ensures
        drive(w, nodes, current, detect, fuel) is Some,
    decreases fuel,
{
    let n = w.n_categories;
    let (w1, action) = advance_spec(w);
    let (nodes1, current1) = if w.pending is Idle {
        advance_nodes(nodes)
    } else {
        (nodes, current)
    };
    if w.pending is Idle {
        lemma_advance(w, nodes, detect);
        lemma_advance_work(w, nodes, detect);
    }
    match action {
        ActionView::Finished => {},
        ActionView::Detect(p, i) => {
            let success = detect(p, i);
            let w2 = on_detect_spec(w1, success);
            let current2 = if success {
                None
            } else {
                current1
            };
            assert(w1.pending == PendingView::Detecting(p, i));
            assert(first_match_from(p, detect, i, n) == if success {
                Some(i)
            } else {
                first_match_from(p, detect, i + 1, n)
            });
            if i + 1 >= n {
                assert(first_match_from(p, detect, i + 1, n) is None);
            }
            assert(corresponds(w2, nodes1, current2, detect));
            lemma_drive_finishes(w2, nodes1, current2, detect, (fuel - 1) as nat);
        },
        ActionView::List(p) => {
            let children = node_children(current1.unwrap());
            let w2 = on_listed_spec(w1, node_entries(children));
            let nodes2 = nodes1 + children.reverse();
            assert(node_entries(nodes2) =~= node_entries(nodes1) + node_entries(children).reverse());
            assert(corresponds(w2, nodes2, None, detect));
            assert(nodes2.reverse() =~= children + nodes1.reverse());
            lemma_work_append(children, nodes1.reverse(), n);
            lemma_drive_finishes(w2, nodes2, None, detect, (fuel - 1) as nat);
        },
    }
}

/// A walk answered from finite trees finishes: with `n` categories it makes
/// at most `n` detections and one listing per directory, and then says it
/// is finished.
pub proof fn lemma_walk_finishes(n: nat, roots: Seq<FsNode>, detect: spec_fn(Seq<char>, nat) -> bool)
    ensures
        drive(
            initial_spec(n, node_entries(roots)),
            roots.reverse(),
            None,
            detect,
            forest_work(roots, n) + 1,
        ) is Some,
{
    let w = initial_spec(n, node_entries(roots));
    assert(node_entries(roots).reverse() =~= node_entries(roots.reverse()));
    assert(roots.reverse().reverse() =~= roots);
    lemma_drive_finishes(w, roots.reverse(), None, detect, forest_work(roots, n) + 1);
}

/// Walking roots one after the other reports what walking each of them
/// reports, in that order: once a walk of `first + second` is finished, its
/// messages are those of a walk of `first` followed by those of a walk of
/// `second` (so a root given twice is reported twice).
pub proof fn lemma_walk_of_joined_roots(
    n: nat,
    first: Seq<FsNode>,
    second: Seq<FsNode>,
    detect: spec_fn(Seq<char>, nat) -> bool,
    fuel: nat,
)
    requires
        drive(
            initial_spec(n, node_entries(first + second)),
            (first + second).reverse(),
            None,
            detect,
            fuel,
        ) is Some,
    ensures
        drive(
            initial_spec(n, node_entries(first + second)),
            (first + second).reverse(),
            None,
            detect,
            fuel,
        ) == Some(
            drive(
                initial_spec(n, node_entries(first)),
                first.reverse(),
                None,
                detect,
                forest_work(first, n) + 1,
            ).unwrap() + drive(
                initial_spec(n, node_entries(second)),
                second.reverse(),
                None,
                detect,
                forest_work(second, n) + 1,
            ).unwrap(),
        ),
{
    lemma_walk_reports_tree(n, first + second, detect, fuel);
    lemma_walk_finishes(n, first, detect);
    lemma_walk_reports_tree(n, first, detect, forest_work(first, n) + 1);
    lemma_walk_finishes(n, second, detect);
    lemma_walk_reports_tree(n, second, detect, forest_work(second, n) + 1);
    lemma_forest_append(first, second, detect, n);
}

} // verus!
