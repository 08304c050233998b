//! Walking a tree of values: every path with what it leads to, handed out
//! one at a time.
//!
//! The walk keeps the containers that it is inside of on a stack of its
//! own, so that its depth is bounded by memory alone.
use vstd::prelude::*;
use vstd::string::*;
use crate::lookup::{segments_view, Lookup, PathView, Segment, SegmentView};
use crate::model::{entry_fields, fields_below, item_fields};
use crate::value::{entries_view, items_view, Value, ValueView};

verus! {

/// What a listing of paths and values stands for.
pub open spec fn fields_view(fields: Seq<(Lookup<'_>, &Value)>) -> Seq<(PathView, ValueView)> {
    Seq::new(fields.len(), |i: int| (fields[i].0@, fields[i].1@))
}

/// How many children a value has.
pub open spec fn child_count(v: ValueView) -> nat {
    match v {
        ValueView::Object(entries) => entries.len(),
        ValueView::Array(items) => items.len(),
        _ => 0,
    }
}

/// The segment that leads from a container to its child at `position`.
pub open spec fn child_segment(v: ValueView, position: int) -> SegmentView {
    match v {
        ValueView::Object(entries) => SegmentView::Field(entries[position].0),
        _ => SegmentView::Index(position as nat),
    }
}

/// The child of a container at `position`.
pub open spec fn child_at(v: ValueView, position: int) -> ValueView {
    match v {
        ValueView::Object(entries) => entries[position].1,
        ValueView::Array(items) => items[position],
        _ => ValueView::Null,
    }
}

/// What [`fields_below`] lists for the children of `v` from `from` on.
pub open spec fn rest_fields(v: ValueView, prefix: PathView, from: nat) -> Seq<
    (PathView, ValueView),
>
    decreases child_count(v) - from,
{
    if from >= child_count(v) {
        Seq::empty()
    } else {
        let here = prefix.push(child_segment(v, from as int));
        seq![(here, child_at(v, from as int))] + fields_below(child_at(v, from as int), here)
            + rest_fields(v, prefix, from + 1)
    }
}

/// What is listed for the first `n` children of `v`.
pub open spec fn first_fields(v: ValueView, prefix: PathView, n: nat) -> Seq<
    (PathView, ValueView),
> {
    match v {
        ValueView::Object(entries) => entry_fields(entries, prefix, n),
        ValueView::Array(items) => item_fields(items, prefix, n),
        _ => Seq::empty(),
    }
}

/// The children before `n` and the children from `n` on are all the
/// children.
pub proof fn lemma_rest_fields(v: ValueView, prefix: PathView, n: nat)
    requires
        n <= child_count(v),
    ensures
        first_fields(v, prefix, n) + rest_fields(v, prefix, n) == fields_below(v, prefix),
    decreases child_count(v) - n,
{
    let all = fields_below(v, prefix);
    if n == child_count(v) {
        assert(first_fields(v, prefix, n) + Seq::empty() =~= first_fields(v, prefix, n));
    } else {
        lemma_rest_fields(v, prefix, n + 1);
        let here = prefix.push(child_segment(v, n as int));
        let one = seq![(here, child_at(v, n as int))] + fields_below(child_at(v, n as int), here);
        assert(first_fields(v, prefix, n + 1) =~= first_fields(v, prefix, n) + one);
        assert(first_fields(v, prefix, n) + (one + rest_fields(v, prefix, n + 1)) =~= (
        first_fields(v, prefix, n) + one) + rest_fields(v, prefix, n + 1));
    }
}

/// A container that a walk is inside of.
pub enum Node<'a> {
    Entries(&'a Vec<(String, Value)>),
    Items(&'a Vec<Value>),
}

/// A container that a walk is inside of, with the number of its children
/// that have been handed out.
pub struct Frame<'a> {
    node: Node<'a>,
    next: usize,
}

impl<'a> Node<'a> {
    /// The container as the model sees it.
    pub open spec fn view(&self) -> ValueView {
        match self {
            Node::Entries(entries) => ValueView::Object(entries_view(entries@)),
            Node::Items(items) => ValueView::Array(items_view(items@)),
        }
    }
}

/// The path to the container that holds the container at `prefix`.
pub open spec fn parent_path(prefix: PathView) -> PathView {
    if prefix.len() == 0 {
        prefix
    } else {
        prefix.drop_last()
    }
}

/// What a walk with the given stack will still hand out: the rest of the
/// innermost container, then the rest of the one around it, and so on.
pub closed spec fn pending_of(frames: Seq<Frame<'_>>, prefix: PathView) -> Seq<
    (PathView, ValueView),
>
    decreases frames.len(),
{
    if frames.len() == 0 {
        Seq::empty()
    } else {
        rest_fields(frames.last().node.view(), prefix, frames.last().next as nat) + pending_of(
            frames.drop_last(),
            parent_path(prefix),
        )
    }
}

/// The walk is inside as many containers as its path says, and has handed
/// out no more children of any than it has.
pub closed spec fn in_step(frames: Seq<Frame<'_>>, prefix: Seq<Segment<'_>>) -> bool {
    &&& forall|k: int|
        0 <= k < frames.len() ==> (#[trigger] frames[k]).next <= child_count(frames[k].node.view())
    &&& (frames.len() == 0 ==> prefix.len() == 0)
    &&& (frames.len() > 0 ==> prefix.len() + 1 == frames.len())
}

/// Goes into `value`, the child that `segment` leads to from the innermost
/// container, if it is a container itself.
fn enter<'a>(
    frames: &mut Vec<Frame<'a>>,
    prefix: &mut Vec<Segment<'a>>,
    segment: Segment<'a>,
    value: &'a Value,
)
    requires
        old(frames)@.len() > 0,
        in_step(old(frames)@, old(prefix)@),
    ensures
        in_step(final(frames)@, final(prefix)@),
        pending_of(final(frames)@, segments_view(final(prefix)@)) == fields_below(
            value@,
            segments_view(old(prefix)@).push(segment@),
        ) + pending_of(old(frames)@, segments_view(old(prefix)@)),
{
    let ghost path = segments_view(prefix@);
    let ghost here = path.push(segment@);
    let ghost before = frames@;
    let ghost outer = pending_of(before, path);
    let inside = match value {
        Value::Object(entries) => Some(Node::Entries(entries)),
        Value::Array(items) => Some(Node::Items(items)),
        _ => None,
    };
    match inside {
        Some(node) => {
            assert(node.view() == value@);
            frames.push(Frame { node, next: 0 });
            prefix.push(segment);
            proof {
                assert(frames@.drop_last() =~= before);
                assert(segments_view(prefix@) =~= here);
                assert(parent_path(here) =~= path);
                lemma_rest_fields(value@, here, 0);
                assert(first_fields(value@, here, 0) + rest_fields(value@, here, 0)
                    =~= rest_fields(value@, here, 0));
            }
        },
        None => {
            proof {
                assert(fields_below(value@, here) + outer =~= outer);
            }
        },
    }
}

/// Takes one step of the walk: hands out the next child of the innermost
/// container and goes into it, or leaves the innermost container when all
/// its children have been handed out.
fn advance<'a>(frames: &mut Vec<Frame<'a>>, prefix: &mut Vec<Segment<'a>>) -> (r: Option<
    (Lookup<'a>, &'a Value),
>)
    requires
        old(frames)@.len() > 0,
        in_step(old(frames)@, old(prefix)@),
    ensures
        in_step(final(frames)@, final(prefix)@),
        match r {
            Some(field) => pending_of(old(frames)@, segments_view(old(prefix)@)) == seq![
                (field.0@, field.1@),
            ] + pending_of(final(frames)@, segments_view(final(prefix)@)),
            None => {
                &&& pending_of(old(frames)@, segments_view(old(prefix)@)) == pending_of(
                    final(frames)@,
                    segments_view(final(prefix)@),
                )
                &&& final(frames)@.len() < old(frames)@.len()
            },
        },
{
    let ghost path = segments_view(prefix@);
    let ghost before = frames@;
    let ghost below = before.drop_last();
    let ghost outer = pending_of(below, parent_path(path));
    let top = frames.len() - 1;
    let ghost node = before[top as int].node.view();
    let position = frames[top].next;
    assert(before.last() == before[top as int]);
    let (node_again, child): (Node<'a>, Option<(Segment<'a>, &'a Value)>) = match &frames[top].node {
        Node::Entries(entries) => (
            Node::Entries(*entries),
            if position < entries.len() {
                Some((Segment::Field(entries[position].0.as_str()), &entries[position].1))
            } else {
                None
            },
        ),
        Node::Items(items) => (
            Node::Items(*items),
            if position < items.len() {
                Some((Segment::Index(position), &items[position]))
            } else {
                None
            },
        ),
    };
    match child {
        None => {
            let _ = frames.pop();
            let _ = prefix.pop();
            proof {
                assert(rest_fields(node, path, position as nat) + outer =~= outer);
                assert(frames@ =~= below);
                assert(segments_view(prefix@) =~= parent_path(path));
            }
            None
        },
        Some((segment, value)) => {
            let lookup = Lookup::child(prefix.as_slice(), segment);
            proof {
                assert(segment@ == child_segment(node, position as int));
                assert(value@ == child_at(node, position as int));
            }
            frames.set(top, Frame { node: node_again, next: position + 1 });
            let ghost moved = frames@;
            proof {
                assert(moved.drop_last() =~= below);
                assert(moved.last().node.view() == node);
                assert(in_step(moved, prefix@));
            }
            enter(frames, prefix, segment, value);
            proof {
                let here = path.push(segment@);
                let rest = rest_fields(node, path, (position + 1) as nat);
                let inside = fields_below(value@, here);
                assert(pending_of(moved, path) == rest + outer);
                assert(pending_of(before, path) =~= seq![(lookup@, value@)] + (inside + (rest
                    + outer)));
            }
            Some((lookup, value))
        },
    }
}

/// A walk over the paths below a value, each handed out with the value that
/// it leads to. A container comes before what it holds; the entries of an
/// object come in the order of their keys, the items of an array by
/// position.
pub struct FieldWalker<'a> {
    frames: Vec<Frame<'a>>,
    prefix: Vec<Segment<'a>>,
}

impl<'a> FieldWalker<'a> {
    /// What the walk will still hand out, in order.
    pub closed spec fn pending(&self) -> Seq<(PathView, ValueView)> {
        pending_of(self.frames@, segments_view(self.prefix@))
    }

    #[verifier::type_invariant]
    spec fn keeps_step(self) -> bool {
        in_step(self.frames@, self.prefix@)
    }

    /// A walk over the fields of the object with the given entries.
    pub fn over(entries: &'a Vec<(String, Value)>) -> (walker: FieldWalker<'a>)
        ensures
            walker.pending() == fields_below(
                ValueView::Object(entries_view(entries@)),
                Seq::empty(),
            ),
    {
        let mut frames: Vec<Frame<'a>> = Vec::new();
        frames.push(Frame { node: Node::Entries(entries), next: 0 });
        let prefix: Vec<Segment<'a>> = Vec::new();
        proof {
            let root = ValueView::Object(entries_view(entries@));
            let empty = Seq::<SegmentView>::empty();
            assert(segments_view(prefix@) =~= empty);
            assert(frames@.drop_last() =~= Seq::<Frame<'a>>::empty());
            assert(frames@.last().node.view() == root);
            lemma_rest_fields(root, empty, 0);
            assert(first_fields(root, empty, 0) + rest_fields(root, empty, 0) =~= rest_fields(
                root,
                empty,
                0,
            ));
            assert(pending_of(frames@.drop_last(), parent_path(empty)) =~= Seq::empty());
            assert(rest_fields(root, empty, 0) + Seq::<(PathView, ValueView)>::empty()
                =~= rest_fields(root, empty, 0));
        }
        FieldWalker { frames, prefix }
    }

    /// Hands out the next path with its value, or nothing when the walk is
    /// over.
    pub fn next(&mut self) -> (r: Option<(Lookup<'a>, &'a Value)>)
        ensures
            match r {
                Some(field) => old(self).pending() == seq![(field.0@, field.1@)]
                    + final(self).pending(),
                None => old(self).pending().len() == 0 && final(self).pending().len() == 0,
            },
    {
        proof {
            use_type_invariant(&*self);
        }
        let mut state = FieldWalker { frames: Vec::new(), prefix: Vec::new() };
        std::mem::swap(self, &mut state);
        let FieldWalker { frames, prefix } = state;
        let mut frames = frames;
        let mut prefix = prefix;
        let ghost start = pending_of(frames@, segments_view(prefix@));
        let mut found: Option<(Lookup<'a>, &'a Value)> = None;
        while frames.len() > 0 && found.is_none()
            invariant
                in_step(frames@, prefix@),
                match found {
                    Some(field) => start == seq![(field.0@, field.1@)] + pending_of(
                        frames@,
                        segments_view(prefix@),
                    ),
                    None => start == pending_of(frames@, segments_view(prefix@)),
                },
            decreases
                    (if found is None {
                        frames@.len() + 1
                    } else {
                        0
                    }),
        {
            found = advance(&mut frames, &mut prefix);
        }
        *self = FieldWalker { frames, prefix };
        found
    }
}

} // verus!
