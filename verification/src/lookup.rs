//! Paths into a record: an ordered, never empty run of segments, each a field
//! name or an array position.
use vstd::prelude::*;
use vstd::string::*;
use crate::key_order::same_text;

verus! {

/// One step of a path in the model.
pub enum SegmentView {
    Field(Seq<char>),
    Index(nat),
}

/// A path in the model.
pub type PathView = Seq<SegmentView>;

/// One step of a borrowed path.
#[derive(Clone, Copy, Debug, PartialEq, Eq, PartialOrd, Ord, Hash)]
pub enum Segment<'a> {
    Field(&'a str),
    Index(usize),
}

/// One step of an owned path.
#[derive(Debug, PartialEq, Eq, PartialOrd, Ord, Hash)]
pub enum SegmentBuf {
    Field(String),
    Index(usize),
}

impl<'a> View for Segment<'a> {
    type V = SegmentView;

    open spec fn view(&self) -> SegmentView {
        match *self {
            Segment::Field(name) => SegmentView::Field(name@),
            Segment::Index(position) => SegmentView::Index(position as nat),
        }
    }
}

impl View for SegmentBuf {
    type V = SegmentView;

    open spec fn view(&self) -> SegmentView {
        match *self {
            SegmentBuf::Field(name) => SegmentView::Field(name@),
            SegmentBuf::Index(position) => SegmentView::Index(position as nat),
        }
    }
}

/// The path that a run of borrowed segments spells.
pub open spec fn segments_view(segments: Seq<Segment<'_>>) -> PathView {
    Seq::new(segments.len(), |i: int| segments[i]@)
}

/// The path that a run of owned segments spells.
pub open spec fn segment_bufs_view(segments: Seq<SegmentBuf>) -> PathView {
    Seq::new(segments.len(), |i: int| segments[i]@)
}

impl Clone for SegmentBuf {
    /// A copy of the segment.
    fn clone(&self) -> (r: Self)
        ensures
            r@ == self@,
    {
        match self {
            SegmentBuf::Field(name) => SegmentBuf::Field(name.clone()),
            SegmentBuf::Index(position) => SegmentBuf::Index(*position),
        }
    }
}

impl SegmentBuf {
    /// Whether two segments are the same step.
    pub fn same_as(&self, other: &SegmentBuf) -> (b: bool)
        ensures
            b == (self@ == other@),
    {
        match (self, other) {
            (SegmentBuf::Field(a), SegmentBuf::Field(b)) => *a == *b,
            (SegmentBuf::Index(a), SegmentBuf::Index(b)) => *a == *b,
            _ => false,
        }
    }

    /// This segment with its name borrowed.
    pub fn as_segment(&self) -> (r: Segment<'_>)
        ensures
            r@ == self@,
    {
        match self {
            SegmentBuf::Field(name) => Segment::Field(name.as_str()),
            SegmentBuf::Index(position) => Segment::Index(*position),
        }
    }
}

impl<'a> Segment<'a> {
    /// Whether two segments are the same step.
    pub fn same_as(&self, other: &Segment<'_>) -> (b: bool)
        ensures
            b == (self@ == other@),
    {
        match (*self, *other) {
            (Segment::Field(a), Segment::Field(b)) => same_text(a, b),
            (Segment::Index(a), Segment::Index(b)) => a == b,
            _ => false,
        }
    }

    /// This segment with a name of its own.
    pub fn to_buf(&self) -> (r: SegmentBuf)
        ensures
            r@ == self@,
    {
        match *self {
            Segment::Field(name) => SegmentBuf::Field(String::from_str(name)),
            Segment::Index(position) => SegmentBuf::Index(position),
        }
    }
}

/// A path whose field names are borrowed. It holds at least one segment.
#[derive(Debug, Eq, PartialOrd, Ord, Hash)]
pub struct Lookup<'a> {
    segments: Vec<Segment<'a>>,
}

/// A path that owns its field names. It holds at least one segment.
#[derive(Debug, Eq, PartialOrd, Ord, Hash)]
pub struct LookupBuf {
    segments: Vec<SegmentBuf>,
}

impl<'a> View for Lookup<'a> {
    type V = PathView;

    closed spec fn view(&self) -> PathView {
        segments_view(self.segments@)
    }
}

impl View for LookupBuf {
    type V = PathView;

    closed spec fn view(&self) -> PathView {
        segment_bufs_view(self.segments@)
    }
}

impl<'a> Clone for Lookup<'a> {
    /// A copy of the path.
    fn clone(&self) -> (r: Self)
        ensures
            r@ == self@,
    {
        proof {
            use_type_invariant(self);
        }
        let mut segments: Vec<Segment<'a>> = Vec::new();
        let mut i: usize = 0;
        while i < self.segments.len()
            invariant
                i <= self.segments@.len(),
                segments@.len() == i,
                forall|j: int| 0 <= j < i ==> segments@[j] == self.segments@[j],
            decreases self.segments@.len() - i,
        {
            segments.push(self.segments[i]);
            i += 1;
        }
        assert(segments_view(segments@) =~= segments_view(self.segments@));
        Lookup { segments }
    }
}

impl Clone for LookupBuf {
    /// A copy of the path.
    fn clone(&self) -> (r: Self)
        ensures
            r@ == self@,
    {
        self.as_lookup().into_buf()
    }
}

impl<'a> PartialEq for Lookup<'a> {
    /// Whether two paths are the same run of segments.
    fn eq(&self, other: &Lookup<'a>) -> (same: bool) {
        self.same_as(other)
    }
}

impl<'a> vstd::std_specs::cmp::PartialEqSpecImpl for Lookup<'a> {
    open spec fn obeys_eq_spec() -> bool {
        true
    }

    open spec fn eq_spec(&self, other: &Lookup<'a>) -> bool {
        self@ == other@
    }
}

impl PartialEq for LookupBuf {
    /// Whether two paths are the same run of segments.
    fn eq(&self, other: &LookupBuf) -> (same: bool) {
        self.same_as(other)
    }
}

impl vstd::std_specs::cmp::PartialEqSpecImpl for LookupBuf {
    open spec fn obeys_eq_spec() -> bool {
        true
    }

    open spec fn eq_spec(&self, other: &LookupBuf) -> bool {
        self@ == other@
    }
}

impl<'a> Lookup<'a> {
    #[verifier::type_invariant]
    spec fn holds_a_segment(self) -> bool {
        self.segments@.len() > 0
    }

    /// The path of one field.
    pub fn from(name: &'a str) -> (r: Lookup<'a>)
        ensures
            r@ == seq![SegmentView::Field(name@)],
    {
        let mut segments: Vec<Segment<'a>> = Vec::new();
        segments.push(Segment::Field(name));
        assert(segments_view(segments@) =~= seq![SegmentView::Field(name@)]);
        Lookup { segments }
    }

    /// The path that `segments` spell, unless there are none.
    pub fn from_segments(segments: Vec<Segment<'a>>) -> (r: Option<Lookup<'a>>)
        ensures
            r is Some <==> segments@.len() > 0,
            r matches Some(path) ==> path@ == segments_view(segments@),
    {
        if segments.len() == 0 {
            None
        } else {
            Some(Lookup { segments })
        }
    }

    /// Whether two paths are the same run of segments.
    pub fn same_as(&self, other: &Lookup<'_>) -> (b: bool)
        ensures
            b == (self@ == other@),
    {
        if self.segments.len() != other.segments.len() {
            assert(self@.len() != other@.len());
            return false;
        }
        let mut i: usize = 0;
        while i < self.segments.len()
            invariant
                i <= self.segments@.len(),
                self.segments@.len() == other.segments@.len(),
                forall|j: int| 0 <= j < i ==> self.segments@[j]@ == other.segments@[j]@,
            decreases self.segments@.len() - i,
        {
            if !self.segments[i].same_as(&other.segments[i]) {
                assert(self@[i as int] != other@[i as int]);
                return false;
            }
            i += 1;
        }
        assert(self@ =~= other@);
        true
    }

    /// The path that goes on from `prefix` with `last`.
    pub fn child(prefix: &[Segment<'a>], last: Segment<'a>) -> (r: Lookup<'a>)
        ensures
            r@ == segments_view(prefix@).push(last@),
    {
        let mut segments: Vec<Segment<'a>> = Vec::new();
        let mut i: usize = 0;
        while i < prefix.len()
            invariant
                i <= prefix@.len(),
                segments@.len() == i,
                forall|j: int| 0 <= j < i ==> segments@[j] == prefix@[j],
            decreases prefix@.len() - i,
        {
            segments.push(prefix[i]);
            i += 1;
        }
        segments.push(last);
        assert(segments_view(segments@) =~= segments_view(prefix@).push(last@));
        Lookup { segments }
    }

    /// Whether the path starts with a field name, as every path that
    /// addresses something in a record does.
    pub fn starts_with_field(&self) -> (b: bool)
        ensures
            b == (self@[0] is Field),
    {
        proof {
            use_type_invariant(self);
        }
        match self.segments[0] {
            Segment::Field(_) => true,
            Segment::Index(_) => false,
        }
    }

    /// The segments in order.
    pub fn as_slice(&self) -> (r: &[Segment<'a>])
        ensures
            segments_view(r@) == self@,
            r@.len() > 0,
    {
        proof {
            use_type_invariant(self);
        }
        self.segments.as_slice()
    }

    /// How many segments the path has; never zero.
    pub fn len(&self) -> (n: usize)
        ensures
            n == self@.len(),
            n > 0,
    {
        proof {
            use_type_invariant(self);
        }
        self.segments.len()
    }

    /// The segment at `position`.
    pub fn segment(&self, position: usize) -> (r: Segment<'a>)
        requires
            position < self@.len(),
        ensures
            r@ == self@[position as int],
    {
        self.segments[position]
    }

    /// The same path with names of its own.
    pub fn into_buf(&self) -> (r: LookupBuf)
        ensures
            r@ == self@,
    {
        proof {
            use_type_invariant(self);
        }
        let mut segments: Vec<SegmentBuf> = Vec::new();
        let mut i: usize = 0;
        while i < self.segments.len()
            invariant
                i <= self.segments@.len(),
                segments@.len() == i,
                forall|j: int| 0 <= j < i ==> segments@[j]@ == self.segments@[j]@,
            decreases self.segments@.len() - i,
        {
            segments.push(self.segments[i].to_buf());
            i += 1;
        }
        assert(segment_bufs_view(segments@) =~= segments_view(self.segments@));
        LookupBuf { segments }
    }
}

impl LookupBuf {
    #[verifier::type_invariant]
    spec fn holds_a_segment(self) -> bool {
        self.segments@.len() > 0
    }

    /// The path of one field.
    pub fn from(name: &str) -> (r: LookupBuf)
        ensures
            r@ == seq![SegmentView::Field(name@)],
    {
        let mut segments: Vec<SegmentBuf> = Vec::new();
        segments.push(SegmentBuf::Field(String::from_str(name)));
        assert(segment_bufs_view(segments@) =~= seq![SegmentView::Field(name@)]);
        LookupBuf { segments }
    }

    /// The path that `segments` spell, unless there are none.
    pub fn from_segments(segments: Vec<SegmentBuf>) -> (r: Option<LookupBuf>)
        ensures
            r is Some <==> segments@.len() > 0,
            r matches Some(path) ==> path@ == segment_bufs_view(segments@),
    {
        if segments.len() == 0 {
            None
        } else {
            Some(LookupBuf { segments })
        }
    }

    /// Whether the path starts with a field name, as every path that
    /// addresses something in a record does.
    pub fn starts_with_field(&self) -> (b: bool)
        ensures
            b == (self@[0] is Field),
    {
        proof {
            use_type_invariant(self);
        }
        match &self.segments[0] {
            SegmentBuf::Field(_) => true,
            SegmentBuf::Index(_) => false,
        }
    }

    /// The segments in order.
    pub fn as_slice(&self) -> (r: &[SegmentBuf])
        ensures
            segment_bufs_view(r@) == self@,
            r@.len() > 0,
    {
        proof {
            use_type_invariant(self);
        }
        self.segments.as_slice()
    }

    /// How many segments the path has; never zero.
    pub fn len(&self) -> (n: usize)
        ensures
            n == self@.len(),
            n > 0,
    {
        proof {
            use_type_invariant(self);
        }
        self.segments.len()
    }

    /// Whether two paths are the same run of segments.
    pub fn same_as(&self, other: &LookupBuf) -> (b: bool)
        ensures
            b == (self@ == other@),
    {
        if self.segments.len() != other.segments.len() {
            assert(self@.len() != other@.len());
            return false;
        }
        let mut i: usize = 0;
        while i < self.segments.len()
            invariant
                i <= self.segments@.len(),
                self.segments@.len() == other.segments@.len(),
                forall|j: int| 0 <= j < i ==> self.segments@[j]@ == other.segments@[j]@,
            decreases self.segments@.len() - i,
        {
            if !self.segments[i].same_as(&other.segments[i]) {
                assert(self@[i as int] != other@[i as int]);
                return false;
            }
            i += 1;
        }
        assert(self@ =~= other@);
        true
    }

    /// The same path with its names borrowed.
    pub fn as_lookup(&self) -> (r: Lookup<'_>)
        ensures
            r@ == self@,
    {
        proof {
            use_type_invariant(self);
        }
        let mut segments: Vec<Segment<'_>> = Vec::new();
        let mut i: usize = 0;
        while i < self.segments.len()
            invariant
                i <= self.segments@.len(),
                segments@.len() == i,
                forall|j: int| 0 <= j < i ==> segments@[j]@ == self.segments@[j]@,
            decreases self.segments@.len() - i,
        {
            segments.push(self.segments[i].as_segment());
            i += 1;
        }
        assert(segments_view(segments@) =~= segment_bufs_view(self.segments@));
        Lookup { segments }
    }
}

} // verus!
