//! Paths of files, taken apart into their components.

use vstd::prelude::*;

verus! {

/// A component of a path. The variants stand in the order in which paths are sorted. A name
/// is held by its bytes: not every name of a file is a text.
#[derive(Debug, PartialEq, Eq)]
pub enum PathPart {
    /// What stands before the root on some systems, such as the name of a drive.
    Prefix(Vec<u8>),
    Root,
    Current,
    Parent,
    Normal(Vec<u8>),
}

/// A path to a file: how it is shown to people, its components as it was named, and the
/// components of the path that it resolves to. Two paths are about one file if and only if
/// they resolve to the same components.
#[derive(Debug, PartialEq, Eq)]
pub struct FilePath {
    pub shown: String,
    pub parts: Vec<PathPart>,
    pub resolved: Vec<PathPart>,
}

/// What a component says.
pub enum PartView {
    Prefix(Seq<u8>),
    Root,
    Current,
    Parent,
    Normal(Seq<u8>),
}

/// What a path says.
pub struct PathView {
    pub shown: Seq<char>,
    pub parts: Seq<PartView>,
    pub resolved: Seq<PartView>,
}

impl View for PathPart {
    type V = PartView;

    open spec fn view(&self) -> PartView {
        match self {
            PathPart::Prefix(name) => PartView::Prefix(name@),
            PathPart::Root => PartView::Root,
            PathPart::Current => PartView::Current,
            PathPart::Parent => PartView::Parent,
            PathPart::Normal(name) => PartView::Normal(name@),
        }
    }
}

/// What the components of `list` say.
pub open spec fn part_views(list: Seq<PathPart>) -> Seq<PartView> {
    list.map_values(|part: PathPart| part@)
}

impl View for FilePath {
    type V = PathView;

    open spec fn view(&self) -> PathView {
        PathView {
            shown: self.shown@,
            parts: part_views(self.parts@),
            resolved: part_views(self.resolved@),
        }
    }
}

/// Whether the name `a` comes before `b`: at the first position where they differ `a` has
/// the smaller byte, or `a` ends there.
pub open spec fn name_before(a: Seq<u8>, b: Seq<u8>) -> bool
    decreases a.len(),
{
    if b.len() == 0 {
        false
    } else if a.len() == 0 {
        true
    } else if a.first() == b.first() {
        name_before(a.drop_first(), b.drop_first())
    } else {
        a.first() < b.first()
    }
}

/// No name comes before itself.
proof fn lemma_name_before_irreflexive(a: Seq<u8>)
    ensures
        !name_before(a, a),
    decreases a.len(),
{
    if a.len() > 0 {
        lemma_name_before_irreflexive(a.drop_first());
    }
}

/// What comes before a second name comes before all that the second one comes before.
proof fn lemma_name_before_transitive(a: Seq<u8>, b: Seq<u8>, c: Seq<u8>)
    requires
        name_before(a, b),
        name_before(b, c),
    ensures
        name_before(a, c),
    decreases a.len(),
{
    if a.len() > 0 && b.len() > 0 && c.len() > 0 && a.first() == b.first() && b.first()
        == c.first() {
        lemma_name_before_transitive(a.drop_first(), b.drop_first(), c.drop_first());
    }
}

/// Of two different names one comes before the other.
proof fn lemma_name_before_total(a: Seq<u8>, b: Seq<u8>)
    requires
        a != b,
    ensures
        name_before(a, b) || name_before(b, a),
    decreases a.len(),
{
    if a.len() == 0 {
        if b.len() == 0 {
            assert(a == b);
        }
    } else if b.len() > 0 && a.first() == b.first() {
        if a.drop_first() == b.drop_first() {
            assert(a == seq![a.first()] + a.drop_first());
            assert(b == seq![b.first()] + b.drop_first());
        }
        lemma_name_before_total(a.drop_first(), b.drop_first());
    }
}

impl PartView {
    /// The rank of the kind of component.
    pub open spec fn rank(self) -> int {
        match self {
            PartView::Prefix(_) => 0,
            PartView::Root => 1,
            PartView::Current => 2,
            PartView::Parent => 3,
            PartView::Normal(_) => 4,
        }
    }

    /// The name in the component, if it has one.
    pub open spec fn name(self) -> Seq<u8> {
        match self {
            PartView::Prefix(name) => name,
            PartView::Normal(name) => name,
            _ => Seq::empty(),
        }
    }

    /// Whether the component comes before `other`: by its kind, then by its name.
    pub open spec fn before(self, other: PartView) -> bool {
        self.rank() < other.rank() || (self.rank() == other.rank() && name_before(
            self.name(),
            other.name(),
        ))
    }
}

/// Whether a path with the components `a` comes before one with the components `b`.
pub open spec fn parts_before(a: Seq<PartView>, b: Seq<PartView>) -> bool
    decreases a.len(),
{
    if b.len() == 0 {
        false
    } else if a.len() == 0 {
        true
    } else if a.first() == b.first() {
        parts_before(a.drop_first(), b.drop_first())
    } else {
        a.first().before(b.first())
    }
}

/// What two names begin with in common does not count; then the smaller byte counts, or else
/// the shorter name comes first.
pub proof fn law_first_different_byte_counts(common: Seq<u8>, a: Seq<u8>, b: Seq<u8>)
    ensures
        name_before(common + a, common + b) == name_before(a, b),
        a.len() > 0 && b.len() > 0 && a[0] != b[0] ==> name_before(a, b) == (a[0] < b[0]),
        a.len() == 0 ==> name_before(a, b) == (b.len() > 0),
        b.len() == 0 ==> !name_before(a, b),
    decreases common.len(),
{
    if common.len() == 0 {
        assert(common + a =~= a);
        assert(common + b =~= b);
    } else {
        law_first_different_byte_counts(common.drop_first(), a, b);
        assert((common + a).drop_first() =~= common.drop_first() + a);
        assert((common + b).drop_first() =~= common.drop_first() + b);
        assert((common + a).first() == common.first());
        assert((common + b).first() == common.first());
    }
}

/// What two paths begin with in common does not count; then the first different component
/// counts, by its name where both are names, or else the shorter path comes first.
pub proof fn law_first_different_component_counts(
    common: Seq<PartView>,
    a: Seq<PartView>,
    b: Seq<PartView>,
)
    ensures
        parts_before(common + a, common + b) == parts_before(a, b),
        a.len() == 0 ==> parts_before(a, b) == (b.len() > 0),
        b.len() == 0 ==> !parts_before(a, b),
        a.len() > 0 && b.len() > 0 && a[0] != b[0] ==> parts_before(a, b) == match (a[0], b[0]) {
            (PartView::Prefix(x), PartView::Prefix(y)) => name_before(x, y),
            (PartView::Prefix(_), _) => true,
            (_, PartView::Prefix(_)) => false,
            (PartView::Root, _) => true,
            (_, PartView::Root) => false,
            (PartView::Current, _) => true,
            (_, PartView::Current) => false,
            (PartView::Parent, _) => true,
            (_, PartView::Parent) => false,
            (PartView::Normal(x), PartView::Normal(y)) => name_before(x, y),
        },
    decreases common.len(),
{
    if common.len() == 0 {
        assert(common + a =~= a);
        assert(common + b =~= b);
    } else {
        law_first_different_component_counts(common.drop_first(), a, b);
        assert((common + a).drop_first() =~= common.drop_first() + a);
        assert((common + b).drop_first() =~= common.drop_first() + b);
        assert((common + a).first() == common.first());
        assert((common + b).first() == common.first());
    }
}

/// No path comes before itself.
pub proof fn lemma_parts_before_irreflexive(a: Seq<PartView>)
    ensures
        !parts_before(a, a),
    decreases a.len(),
{
    if a.len() > 0 {
        lemma_parts_before_irreflexive(a.drop_first());
    }
}

/// What comes before a second path comes before all that the second one comes before.
pub proof fn lemma_parts_before_transitive(a: Seq<PartView>, b: Seq<PartView>, c: Seq<PartView>)
    requires
        parts_before(a, b),
        parts_before(b, c),
    ensures
        parts_before(a, c),
    decreases a.len(),
{
    if a.len() > 0 && b.len() > 0 && c.len() > 0 {
        let (x, y, z) = (a.first(), b.first(), c.first());
        if x == y && y == z {
            lemma_parts_before_transitive(a.drop_first(), b.drop_first(), c.drop_first());
        } else if x != y && y != z {
            if name_before(x.name(), y.name()) && name_before(y.name(), z.name()) {
                lemma_name_before_transitive(x.name(), y.name(), z.name());
            }
            if x == z {
                lemma_name_before_irreflexive(x.name());
            }
        }
    }
}

/// Of two different paths one comes before the other.
pub proof fn lemma_parts_before_total(a: Seq<PartView>, b: Seq<PartView>)
    requires
        a != b,
    ensures
        parts_before(a, b) || parts_before(b, a),
    decreases a.len(),
{
    if a.len() == 0 {
        if b.len() == 0 {
            assert(a == b);
        }
    } else if b.len() > 0 {
        let (x, y) = (a.first(), b.first());
        if x == y {
            if a.drop_first() == b.drop_first() {
                assert(a == seq![x] + a.drop_first());
                assert(b == seq![y] + b.drop_first());
            }
            lemma_parts_before_total(a.drop_first(), b.drop_first());
        } else if x.rank() == y.rank() {
            assert(x.name() != y.name());
            lemma_name_before_total(x.name(), y.name());
        }
    }
}

impl PathPart {
    /// The rank of the kind of component.
    fn rank(&self) -> (r: u8)
        ensures
            r == self@.rank(),
    {
        match self {
            PathPart::Prefix(_) => 0,
            PathPart::Root => 1,
            PathPart::Current => 2,
            PathPart::Parent => 3,
            PathPart::Normal(_) => 4,
        }
    }

    /// The name in the component, if it has one.
    fn name(&self) -> (r: &[u8])
        ensures
            r@ == self@.name(),
    {
        match self {
            PathPart::Prefix(name) => name.as_slice(),
            PathPart::Normal(name) => name.as_slice(),
            _ => {
                let none: &[u8] = &[];
                assert(none@ =~= Seq::empty());
                none
            },
        }
    }

    /// Whether two components are the same.
    fn same(&self, other: &PathPart) -> (r: bool)
        ensures
            r == (self@ == other@),
    {
        self.rank() == other.rank() && same_names(self.name(), other.name())
    }

    /// Whether the component comes before `other`.
    fn before(&self, other: &PathPart) -> (r: bool)
        ensures
            r == self@.before(other@),
    {
        self.rank() < other.rank() || (self.rank() == other.rank() && name_comes_before(
            self.name(),
            other.name(),
        ))
    }

    /// Another component that says the same.
    fn copy(&self) -> (r: PathPart)
        ensures
            r@ == self@,
    {
        match self {
            PathPart::Prefix(name) => PathPart::Prefix(name.clone()),
            PathPart::Root => PathPart::Root,
            PathPart::Current => PathPart::Current,
            PathPart::Parent => PathPart::Parent,
            PathPart::Normal(name) => PathPart::Normal(name.clone()),
        }
    }
}

/// Whether two names are the same.
fn same_names(a: &[u8], b: &[u8]) -> (r: bool)
    ensures
        r == (a@ == b@),
{
    if a.len() != b.len() {
        return false;
    }
    for i in 0..a.len()
        invariant
            a.len() == b.len(),
            forall|k: int| 0 <= k < i ==> a@[k] == b@[k],
    {
        if a[i] != b[i] {
            return false;
        }
    }
    assert(a@ =~= b@);
    true
}

/// Whether the name `a` comes before `b`.
fn name_comes_before(a: &[u8], b: &[u8]) -> (r: bool)
    ensures
        r == name_before(a@, b@),
{
    let mut i: usize = 0;
    assert(a@.skip(0) == a@ && b@.skip(0) == b@);
    while i < a.len() && i < b.len() && a[i] == b[i]
        invariant
            i <= a.len(),
            i <= b.len(),
            name_before(a@, b@) == name_before(a@.skip(i as int), b@.skip(i as int)),
        decreases a.len() - i,
    {
        assert(a@.skip(i as int).drop_first() == a@.skip(i + 1));
        assert(b@.skip(i as int).drop_first() == b@.skip(i + 1));
        i = i + 1;
    }
    if i < a.len() {
        assert(a@.skip(i as int).first() == a@[i as int]);
    }
    if i < b.len() {
        assert(b@.skip(i as int).first() == b@[i as int]);
    }
    i < b.len() && (i == a.len() || a[i] < b[i])
}

/// Whether the components `start` are those that `all` begins with.
fn begins_with(all: &Vec<PathPart>, start: &Vec<PathPart>) -> (r: bool)
    ensures
        r == part_views(start@).is_prefix_of(part_views(all@)),
{
    if start.len() > all.len() {
        return false;
    }
    let ghost parts = part_views(all@);
    let ghost wanted = part_views(start@);
    for i in 0..start.len()
        invariant
            start.len() <= all.len(),
            parts == part_views(all@),
            wanted == part_views(start@),
            forall|k: int| 0 <= k < i ==> #[trigger] wanted[k] == parts[k],
    {
        assert(parts[i as int] == all@[i as int]@);
        assert(wanted[i as int] == start@[i as int]@);
        if !all[i].same(&start[i]) {
            assert(parts.subrange(0, wanted.len() as int)[i as int] != wanted[i as int]);
            return false;
        }
    }
    assert(parts.subrange(0, wanted.len() as int) == wanted);
    true
}

/// Other components that say the same.
fn copy_of(list: &Vec<PathPart>) -> (r: Vec<PathPart>)
    ensures
        part_views(r@) == part_views(list@),
{
    let mut r: Vec<PathPart> = Vec::new();
    for i in 0..list.len()
        invariant
            r.len() == i,
            forall|k: int| 0 <= k < i ==> (#[trigger] r@[k])@ == list@[k]@,
    {
        r.push(list[i].copy());
    }
    assert(part_views(r@) =~= part_views(list@));
    r
}

impl FilePath {
    /// Whether the file lies at or below `root`.
    pub fn starts_with(&self, root: &FilePath) -> (r: bool)
        ensures
            r == root@.resolved.is_prefix_of(self@.resolved),
    {
        begins_with(&self.resolved, &root.resolved)
    }

    /// Whether two paths are about one file.
    pub fn same(&self, other: &FilePath) -> (r: bool)
        ensures
            r == (self@.resolved == other@.resolved),
    {
        let inside = self.starts_with(other);
        assert(self@.resolved.subrange(0, self@.resolved.len() as int) == self@.resolved);
        self.resolved.len() == other.resolved.len() && inside
    }

    /// Whether the path, as it was named, comes before `other`.
    pub fn before(&self, other: &FilePath) -> (r: bool)
        ensures
            r == parts_before(self@.parts, other@.parts),
    {
        let ghost left = self@.parts;
        let ghost right = other@.parts;
        let mut i: usize = 0;
        assert(left.skip(0) == left && right.skip(0) == right);
        while i < self.parts.len() && i < other.parts.len()
            invariant
                left == self@.parts,
                right == other@.parts,
                i <= self.parts.len(),
                i <= other.parts.len(),
                parts_before(left, right) == parts_before(left.skip(i as int), right.skip(i as int)),
            decreases self.parts.len() - i,
        {
            assert(left.skip(i as int).first() == self.parts@[i as int]@);
            assert(right.skip(i as int).first() == other.parts@[i as int]@);
            if !self.parts[i].same(&other.parts[i]) {
                return self.parts[i].before(&other.parts[i]);
            }
            assert(left.skip(i as int).drop_first() == left.skip(i + 1));
            assert(right.skip(i as int).drop_first() == right.skip(i + 1));
            i = i + 1;
        }
        i < other.parts.len()
    }
}

impl Clone for FilePath {
    fn clone(&self) -> (r: Self)
        ensures
            r@ == self@,
    {
        FilePath {
            shown: self.shown.clone(),
            parts: copy_of(&self.parts),
            resolved: copy_of(&self.resolved),
        }
    }
}

} // verus!
