//! File system paths as text, read as a sequence of components.

use vstd::prelude::*;

use crate::sorting::Sortable;
use crate::text::{self, chars_of, compare_text, text_of, Order};

verus! {

/// One component of a path, in the order in which components sort.
pub enum Part {
    /// The `/` at the start of an absolute path.
    Root,
    /// A `.` at the start of a relative path.
    Current,
    /// A `..`.
    Parent,
    /// Any other name.
    Named(Seq<char>),
}

/// A component and the position behind it in the text of its path.
pub struct Span {
    pub part: Part,
    pub end: int,
}

/// Where the segment that starts at `from` ends: the next `/`, or the end of the text.
pub open spec fn segment_end(text: Seq<char>, from: int) -> int
    decreases text.len() + 1 - from,
{
    if from >= text.len() || text[from] == '/' {
        from
    } else {
        segment_end(text, from + 1)
    }
}

/// The component that a segment stands for.
pub open spec fn part_of(segment: Seq<char>) -> Part {
    if segment == seq!['.', '.'] {
        Part::Parent
    } else {
        Part::Named(segment)
    }
}

/// Empty segments and `.` are no components.
pub open spec fn is_silent(segment: Seq<char>) -> bool {
    segment.len() == 0 || segment == seq!['.']
}

/// A segment lies within its text.
pub proof fn segment_end_is_bounded(text: Seq<char>, from: int)
    requires
        0 <= from <= text.len(),
    ensures
        from <= segment_end(text, from) <= text.len(),
        segment_end(text, from) < text.len() ==> text[segment_end(text, from)] == '/',
        forall|i: int| from <= i < segment_end(text, from) ==> text[i] != '/',
    decreases text.len() + 1 - from,
{
    if from < text.len() && text[from] != '/' {
        segment_end_is_bounded(text, from + 1);
    }
}

/// The components of the segments from `from` on.
pub open spec fn spans_from(text: Seq<char>, from: int) -> Seq<Span>
    decreases text.len() + 1 - from,
{
    if from < 0 || from >= text.len() {
        Seq::empty()
    } else {
        proof {
            segment_end_is_bounded(text, from);
        }
        let end = segment_end(text, from);
        let segment = text.subrange(from, end);
        if is_silent(segment) {
            spans_from(text, end + 1)
        } else {
            seq![Span { part: part_of(segment), end }] + spans_from(text, end + 1)
        }
    }
}

/// What the start of the text adds: the root, or a leading `.`.
pub open spec fn lead(text: Seq<char>) -> Seq<Span> {
    if text.len() > 0 && text[0] == '/' {
        seq![Span { part: Part::Root, end: 1 }]
    } else if text.len() > 0 && text[0] == '.' && (text.len() == 1 || text[1] == '/') {
        seq![Span { part: Part::Current, end: 1 }]
    } else {
        Seq::empty()
    }
}

/// The components of a path with their places.
pub open spec fn spans(text: Seq<char>) -> Seq<Span> {
    lead(text) + spans_from(text, 0)
}

/// The components of a path.
pub open spec fn parts(text: Seq<char>) -> Seq<Part> {
    spans(text).map_values(|span: Span| span.part)
}

/// How two components compare.
pub open spec fn part_order(left: Part, right: Part) -> Order {
    match (left, right) {
        (Part::Named(a), Part::Named(b)) => text::text_order(a, b),
        _ => text::int_order(part_rank(left), part_rank(right)),
    }
}

/// The place of a component among those of other sorts.
pub open spec fn part_rank(part: Part) -> int {
    match part {
        Part::Root => 0,
        Part::Current => 1,
        Part::Parent => 2,
        Part::Named(_) => 3,
    }
}

/// Paths compare by their first differing component; a path comes before what it holds.
pub open spec fn parts_order(left: Seq<Part>, right: Seq<Part>) -> Order
    decreases left.len(),
{
    if left.len() == 0 && right.len() == 0 {
        Order::Equal
    } else if left.len() == 0 {
        Order::Less
    } else if right.len() == 0 {
        Order::Greater
    } else {
        part_order(left[0], right[0]).or_tie(parts_order(left.drop_first(), right.drop_first()))
    }
}

proof fn part_order_is_an_order(first: Part, second: Part, third: Part)
    ensures
        part_order(second, first) == part_order(first, second).opposite(),
        part_order(first, second) == Order::Equal <==> first == second,
        part_order(first, second) != Order::Greater && part_order(second, third) != Order::Greater
            ==> part_order(first, third) != Order::Greater && (part_order(first, third)
            == Order::Equal ==> first == second && second == third),
{
    if let (Part::Named(a), Part::Named(b)) = (first, second) {
        text::text_order_is_antisymmetric(a, b);
        if let Part::Named(c) = third {
            if part_order(first, second) != Order::Greater && part_order(second, third)
                != Order::Greater {
                text::text_order_is_transitive(a, b, c);
            }
        }
    }
}

/// Comparing two paths the other way round gives the opposite outcome, and only paths with the
/// same components compare as equal.
pub proof fn parts_order_is_antisymmetric(left: Seq<Part>, right: Seq<Part>)
    ensures
        parts_order(right, left) == parts_order(left, right).opposite(),
        parts_order(left, right) == Order::Equal <==> left == right,
    decreases left.len(),
{
    if left.len() > 0 && right.len() > 0 {
        part_order_is_an_order(left[0], right[0], right[0]);
        parts_order_is_antisymmetric(left.drop_first(), right.drop_first());
        if parts_order(left, right) == Order::Equal {
            assert(left =~= seq![left[0]] + left.drop_first());
            assert(right =~= seq![right[0]] + right.drop_first());
        }
    } else if left.len() == 0 && right.len() == 0 {
        assert(left =~= right);
    }
}

/// The order of paths is transitive.
pub proof fn parts_order_is_transitive(first: Seq<Part>, second: Seq<Part>, third: Seq<Part>)
    requires
        parts_order(first, second) != Order::Greater,
        parts_order(second, third) != Order::Greater,
    ensures
        parts_order(first, third) != Order::Greater,
    decreases first.len(),
{
    if first.len() > 0 && second.len() > 0 && third.len() > 0 {
        part_order_is_an_order(first[0], second[0], third[0]);
        part_order_is_an_order(second[0], third[0], first[0]);
        if part_order(first[0], second[0]) == Order::Equal && part_order(second[0], third[0])
            == Order::Equal {
            parts_order_is_transitive(
                first.drop_first(),
                second.drop_first(),
                third.drop_first(),
            );
        }
    }
}

/// `base` leads to `path`: its components are the first ones of `path`.
pub open spec fn within(path: Seq<Part>, base: Seq<Part>) -> bool {
    base.len() <= path.len() && path.take(base.len() as int) == base
}

/// What lies within a path within a base lies within that base.
pub proof fn within_is_transitive(path: Seq<Part>, middle: Seq<Part>, base: Seq<Part>)
    requires
        within(path, middle),
        within(middle, base),
    ensures
        within(path, base),
{
    assert(path.take(base.len() as int) =~= middle.take(base.len() as int));
}

/// Every path lies within itself.
pub proof fn within_is_reflexive(path: Seq<Part>)
    ensures
        within(path, path),
{
    assert(path.take(path.len() as int) =~= path);
}

/// A component in executable code.
pub enum Component {
    Root,
    Current,
    Parent,
    Named(Vec<char>),
}

impl View for Component {
    type V = Part;

    open spec fn view(&self) -> Part {
        match self {
            Component::Root => Part::Root,
            Component::Current => Part::Current,
            Component::Parent => Part::Parent,
            Component::Named(name) => Part::Named(name@),
        }
    }
}

/// The components that a list holds.
pub open spec fn parts_in(list: Seq<Component>) -> Seq<Part> {
    list.map_values(|component: Component| component@)
}

fn rank(component: &Component) -> (number: u8)
    ensures
        number == part_rank(component@),
{
    match component {
        Component::Root => 0,
        Component::Current => 1,
        Component::Parent => 2,
        Component::Named(_) => 3,
    }
}

fn compare_component(left: &Component, right: &Component) -> (order: Order)
    ensures
        order == part_order(left@, right@),
{
    if let Component::Named(a) = left {
        if let Component::Named(b) = right {
            return compare_text(a.as_slice(), b.as_slice());
        }
    }
    let a: u8 = rank(left);
    let b: u8 = rank(right);
    if a < b {
        Order::Less
    } else if a == b {
        Order::Equal
    } else {
        Order::Greater
    }
}

/// Compares two paths by their components.
pub fn compare_components(left: &[Component], right: &[Component]) -> (order: Order)
    ensures
        order == parts_order(parts_in(left@), parts_in(right@)),
{
    let mut i: usize = 0;
    let ghost a = parts_in(left@);
    let ghost b = parts_in(right@);
    assert(a.skip(0) =~= a);
    assert(b.skip(0) =~= b);
    while i < left.len() && i < right.len()
        invariant
            i <= left.len(),
            i <= right.len(),
            a == parts_in(left@),
            b == parts_in(right@),
            parts_order(a, b) == parts_order(a.skip(i as int), b.skip(i as int)),
        decreases left.len() - i,
    {
        let order = compare_component(&left[i], &right[i]);
        assert(a.skip(i as int).drop_first() =~= a.skip(i + 1));
        assert(b.skip(i as int).drop_first() =~= b.skip(i + 1));
        match order {
            Order::Equal => {},
            _ => {
                return order;
            },
        }
        i += 1;
    }
    if left.len() < right.len() {
        Order::Less
    } else if left.len() > right.len() {
        Order::Greater
    } else {
        Order::Equal
    }
}

/// Whether a path lies within a base.
pub fn components_within(path: &[Component], base: &[Component]) -> (inside: bool)
    ensures
        inside == within(parts_in(path@), parts_in(base@)),
{
    if base.len() > path.len() {
        return false;
    }
    let ghost a = parts_in(path@);
    let ghost b = parts_in(base@);
    let mut i: usize = 0;
    while i < base.len()
        invariant
            i <= base.len() <= path.len(),
            a == parts_in(path@),
            b == parts_in(base@),
            forall|k: int| 0 <= k < i ==> a[k] == b[k],
        decreases base.len() - i,
    {
        proof {
            part_order_is_an_order(a[i as int], b[i as int], b[i as int]);
        }
        match compare_component(&path[i], &base[i]) {
            Order::Equal => {},
            _ => {
                assert(a.take(b.len() as int)[i as int] != b[i as int]);
                return false;
            },
        }
        i += 1;
    }
    assert(a.take(b.len() as int) =~= b);
    true
}

/// A component and the position behind it, in executable code.
struct Placed {
    component: Component,
    end: usize,
}

spec fn placed(list: Seq<Placed>) -> Seq<Span> {
    list.map_values(|item: Placed| Span { part: item.component@, end: item.end as int })
}

/// Reads the components of a path with their places.
fn place_components(text: &[char]) -> (list: Vec<Placed>)
    ensures
        placed(list@) == spans(text@),
        forall|i: int| 0 <= i < list@.len() ==> (#[trigger] list@[i]).end <= text@.len(),
{
    let mut list: Vec<Placed> = Vec::new();
    if text.len() > 0 && text[0] == '/' {
        list.push(Placed { component: Component::Root, end: 1 });
    } else if text.len() > 0 && text[0] == '.' && (text.len() == 1 || text[1] == '/') {
        list.push(Placed { component: Component::Current, end: 1 });
    }
    assert(placed(list@) =~= lead(text@));
    let mut from: usize = 0;
    while from < text.len()
        invariant
            placed(list@) + spans_from(text@, from as int) =~= spans(text@),
            forall|i: int| 0 <= i < list@.len() ==> (#[trigger] list@[i]).end <= text@.len(),
        decreases text.len() + 1 - from,
    {
        let mut end: usize = from;
        let mut segment: Vec<char> = Vec::new();
        proof {
            segment_end_is_bounded(text@, from as int);
        }
        while end < text.len() && text[end] != '/'
            invariant
                from <= end <= text.len(),
                segment@ =~= text@.subrange(from as int, end as int),
                segment_end(text@, end as int) == segment_end(text@, from as int),
            decreases text.len() - end,
        {
            segment.push(text[end]);
            end += 1;
        }
        let ghost name = text@.subrange(from as int, end as int);
        let ghost before = placed(list@);
        let silent = segment.len() == 0 || (segment.len() == 1 && segment[0] == '.');
        proof {
            if name.len() == 1 && name[0] == '.' {
                assert(name =~= seq!['.']);
            }
        }
        if !silent {
            let component = if segment.len() == 2 && segment[0] == '.' && segment[1] == '.' {
                assert(name =~= seq!['.', '.']);
                Component::Parent
            } else {
                Component::Named(segment)
            };
            assert(component@ == part_of(name));
            list.push(Placed { component, end });
            proof {
                let span = Span { part: part_of(name), end: end as int };
                assert(placed(list@) =~= before.push(span));
                assert(before.push(span) + spans_from(text@, end + 1) =~= before + (seq![span]
                    + spans_from(text@, end + 1)));
            }
        }
        if end == text.len() {
            from = end;
        } else {
            from = end + 1;
        }
    }
    assert(placed(list@) =~= spans(text@));
    list
}

/// A file system path.
#[derive(Debug, Eq)]
pub struct FilePath {
    text: String,
}

impl View for FilePath {
    type V = Seq<char>;

    closed spec fn view(&self) -> Seq<char> {
        self.text@
    }
}

impl Clone for FilePath {
    fn clone(&self) -> (result: Self)
        ensures
            result == *self,
    {
        FilePath { text: self.text.clone() }
    }
}

/// Two paths are the same where they have the same components.
impl PartialEq for FilePath {
    fn eq(&self, other: &Self) -> (result: bool) {
        self.same_as(other)
    }
}

impl vstd::std_specs::cmp::PartialEqSpecImpl for FilePath {
    open spec fn obeys_eq_spec() -> bool {
        true
    }

    open spec fn eq_spec(&self, other: &Self) -> bool {
        self.parts() == other.parts()
    }
}

/// The text of the directory that holds a path: what stands before its last component, without
/// the separators between.
pub open spec fn parent_text(text: Seq<char>) -> Option<Seq<char>> {
    let list = spans(text);
    if list.len() == 0 || list.last().part == Part::Root {
        None
    } else if list.len() == 1 {
        Some(Seq::empty())
    } else {
        Some(text.take(list[list.len() - 2].end))
    }
}

/// The text of an entry in a directory: the two texts with one separator between them.
pub open spec fn child_text(directory: Seq<char>, name: Seq<char>) -> Seq<char> {
    if directory.len() == 0 || directory.last() == '/' {
        directory + name
    } else {
        directory.push('/') + name
    }
}

impl FilePath {
    /// The components of this path.
    pub open spec fn parts(&self) -> Seq<Part> {
        parts(self@)
    }

    /// The path with the given text.
    pub fn new(text: &str) -> (path: FilePath)
        ensures
            path@ == text@,
    {
        FilePath { text: text.to_owned() }
    }

    /// The text of this path.
    pub fn as_str(&self) -> (text: &str)
        ensures
            text@ == self@,
    {
        self.text.as_str()
    }

    /// Reads the components of this path.
    pub fn components(&self) -> (list: Vec<Component>)
        ensures
            parts_in(list@) == self.parts(),
    {
        let chars = chars_of(self.text.as_str());
        let mut places = place_components(chars.as_slice());
        let ghost whole = placed(places@);
        let mut reversed: Vec<Component> = Vec::new();
        while places.len() > 0
            invariant
                placed(places@) =~= whole.take(places@.len() as int),
                places@.len() <= whole.len(),
                reversed@.len() == whole.len() - places@.len(),
                forall|k: int|
                    0 <= k < reversed@.len() ==> (#[trigger] reversed@[k])@ == whole[whole.len() - 1
                        - k].part,
            decreases places.len(),
        {
            let ghost before = places@;
            if let Some(last) = places.pop() {
                reversed.push(last.component);
                proof {
                    assert(placed(before)[before.len() - 1] == whole[before.len() - 1]);
                    assert(placed(places@) =~= whole.take(places@.len() as int)) by {
                        assert forall|k: int| 0 <= k < places@.len() implies placed(places@)[k]
                            == whole[k] by {
                            assert(placed(before)[k] == whole[k]);
                        }
                    }
                }
            }
        }
        let mut list: Vec<Component> = Vec::new();
        while reversed.len() > 0
            invariant
                reversed@.len() + list@.len() == whole.len(),
                forall|k: int|
                    0 <= k < reversed@.len() ==> (#[trigger] reversed@[k])@ == whole[whole.len() - 1
                        - k].part,
                forall|k: int| 0 <= k < list@.len() ==> (#[trigger] list@[k])@ == whole[k].part,
            decreases reversed.len(),
        {
            if let Some(last) = reversed.pop() {
                list.push(last);
            }
        }
        assert(parts_in(list@) =~= self.parts());
        list
    }

    /// Whether two paths have the same components.
    pub fn same_as(&self, other: &FilePath) -> (same: bool)
        ensures
            same == (self.parts() == other.parts()),
    {
        let left = self.components();
        let right = other.components();
        proof {
            parts_order_is_antisymmetric(self.parts(), other.parts());
        }
        match compare_components(left.as_slice(), right.as_slice()) {
            Order::Equal => true,
            _ => false,
        }
    }

    /// Whether this path is `base` or leads through it.
    pub fn starts_with(&self, base: &FilePath) -> (inside: bool)
        ensures
            inside == within(self.parts(), base.parts()),
    {
        let path = self.components();
        let other = base.components();
        components_within(path.as_slice(), other.as_slice())
    }

    /// The path without its last component.
    pub fn parent(&self) -> (result: Option<FilePath>)
        ensures
            match result {
                Some(path) => parent_text(self@) == Some(path@),
                None => parent_text(self@) is None,
            },
            result is None <==> self.parts().len() == 0 || self.parts().last() == Part::Root,
            result matches Some(path) ==> path.parts() == self.parts().drop_last(),
    {
        let chars = chars_of(self.text.as_str());
        let places = place_components(chars.as_slice());
        let ghost list = spans(self@);
        assert(places@.len() == list.len());
        assert(self.parts().len() == list.len());
        if places.len() == 0 {
            return None;
        }
        assert(list.last() == placed(places@).last());
        assert(self.parts().last() == list.last().part);
        if let Component::Root = places[places.len() - 1].component {
            return None;
        }
        proof {
            parent_drops_the_last_part(self@);
        }
        let end: usize = if places.len() == 1 {
            0
        } else {
            places[places.len() - 2].end
        };
        proof {
            if places@.len() > 1 {
                assert(list[list.len() - 2] == placed(places@)[places@.len() - 2]);
            }
            assert(self@.take(0) =~= Seq::empty());
        }
        let kept = vstd::slice::slice_subrange(chars.as_slice(), 0, end);
        assert(kept@ =~= self@.take(end as int));
        Some(FilePath { text: text_of(kept) })
    }

    /// The path of an entry in this directory.
    pub fn child(&self, name: &str) -> (path: FilePath)
        ensures
            path@ == child_text(self@, name@),
            within(path.parts(), self.parts()),
    {
        let directory = chars_of(self.text.as_str());
        let mut text = self.text.clone();
        if directory.len() > 0 && directory[directory.len() - 1] != '/' {
            text.push('/');
        }
        text.append(name);
        proof {
            child_lies_within(self@, name@);
        }
        FilePath { text }
    }

    /// The length of the text in bytes.
    pub fn byte_len(&self) -> (length: usize)
        ensures
            length == vstd::utf8::encode_utf8(self@).len(),
    {
        self.text.as_str().as_bytes().len()
    }
}

/// A path without its last component has the components before it.
pub proof fn parent_drops_the_last_part(text: Seq<char>)
    ensures
        match parent_text(text) {
            Some(rest) => parts(rest) == parts(text).drop_last(),
            None => parts(text).len() == 0 || parts(text).last() == Part::Root,
        },
        parts(text).len() == 0 || parts(text).last() == Part::Root ==> parent_text(text) is None,
{
    let list = spans(text);
    if list.len() == 0 || list.last().part == Part::Root {
        if list.len() > 0 {
            assert(parts(text).last() == Part::Root);
        }
    } else if list.len() == 1 {
        assert(spans(Seq::<char>::empty()) =~= Seq::empty());
        assert(parts(Seq::<char>::empty()) =~= parts(text).drop_last());
    } else {
        spans_of_a_cut(text, list.len() - 2);
        let rest = text.take(list[list.len() - 2].end);
        assert(parts(rest) =~= parts(text).drop_last());
    }
}

/// Cutting a path behind a component leaves the components up to it.
proof fn spans_of_a_cut(text: Seq<char>, last: int)
    requires
        0 <= last < spans(text).len(),
    ensures
        0 <= spans(text)[last].end <= text.len(),
        spans(text.take(spans(text)[last].end)) == spans(text).take(last + 1),
{
    let list = spans(text);
    let end = list[last].end;
    let offset = lead(text).len() as int;
    let rest = text.take(end);
    if last < offset {
        assert(end == 1);
        assert(rest.len() == 1 && rest[0] == text[0]);
        segment_end_is_bounded(rest, 0);
        reveal_with_fuel(segment_end, 3);
        reveal_with_fuel(spans_from, 3);
        if text[0] == '.' {
            assert(rest.subrange(0, 1) =~= seq!['.']);
        }
        assert(spans_from(rest, 0) =~= Seq::empty());
        assert(spans(rest) =~= list.take(1));
    } else {
        assert(list[last] == spans_from(text, 0)[last - offset]);
        ends_of_spans_from(text, 0, last - offset);
        cut_of_spans_from(text, 0, last - offset);
        assert(lead(rest) == lead(text)) by {
            reveal_with_fuel(segment_end, 3);
            segment_end_is_bounded(text, 0);
            assert(rest[0] == text[0]);
            if text.len() > 1 && text[0] == '.' && text[1] == '/' {
                assert(text.subrange(0, 1) =~= seq!['.']);
                assert(spans_from(text, 0) == spans_from(text, 2));
                ends_of_spans_from(text, 2, last - offset);
            }
            if text.len() > 1 && text[0] == '.' && text[1] != '/' && end == 1 {
                ends_of_spans_from(text, 0, last - offset);
                assert(segment_end(text, 0) >= 2);
            }
        }
        assert(spans(rest) =~= list.take(last + 1));
    }
}

/// A component from `from` on ends behind `from`, at the end of its segment.
proof fn ends_of_spans_from(text: Seq<char>, from: int, index: int)
    requires
        0 <= from,
        0 <= index < spans_from(text, from).len(),
    ensures
        from < spans_from(text, from)[index].end <= text.len(),
        segment_end(text, from) <= spans_from(text, from)[index].end,
    decreases text.len() + 1 - from,
{
    segment_end_is_bounded(text, from);
    let end = segment_end(text, from);
    if is_silent(text.subrange(from, end)) {
        ends_of_spans_from(text, end + 1, index);
    } else if index > 0 {
        ends_of_spans_from(text, end + 1, index - 1);
    }
}

proof fn cut_of_spans_from(text: Seq<char>, from: int, index: int)
    requires
        0 <= from,
        0 <= index < spans_from(text, from).len(),
    ensures
        spans_from(text.take(spans_from(text, from)[index].end), from) == spans_from(
            text,
            from,
        ).take(index + 1),
    decreases text.len() + 1 - from,
{
    let list = spans_from(text, from);
    let cut = list[index].end;
    let rest = text.take(cut);
    ends_of_spans_from(text, from, index);
    segment_end_is_bounded(text, from);
    let end = segment_end(text, from);
    segment_end_of_a_cut(text, from, cut);
    let segment = text.subrange(from, end);
    assert(rest.subrange(from, end) =~= segment);
    if is_silent(segment) {
        cut_of_spans_from(text, end + 1, index);
    } else {
        let tail = spans_from(text, end + 1);
        assert(list == seq![Span { part: part_of(segment), end }] + tail);
        if index == 0 {
            assert(spans_from(rest, end + 1) =~= Seq::empty());
            assert(spans_from(rest, from) =~= list.take(1));
        } else {
            assert(list[index] == tail[index - 1]);
            cut_of_spans_from(text, end + 1, index - 1);
            assert(spans_from(rest, from) =~= list.take(index + 1));
        }
    }
}

proof fn segment_end_of_a_cut(text: Seq<char>, from: int, cut: int)
    requires
        0 <= from <= cut <= text.len(),
        segment_end(text, from) <= cut,
    ensures
        segment_end(text.take(cut), from) == segment_end(text, from),
    decreases text.len() + 1 - from,
{
    segment_end_is_bounded(text, from);
    if from < cut && text[from] != '/' {
        segment_end_of_a_cut(text, from + 1, cut);
    }
}

/// An entry lies within its directory.
pub proof fn child_lies_within(directory: Seq<char>, name: Seq<char>)
    ensures
        within(parts(child_text(directory, name)), parts(directory)),
{
    let whole = child_text(directory, name);
    if directory.len() == 0 {
        assert(spans(directory) =~= Seq::empty());
        assert(parts(whole).take(0) =~= parts(directory));
    } else {
        let tail = whole.skip(directory.len() as int);
        assert(whole =~= directory + tail);
        assert(directory.last() == '/' || tail[0] == '/');
        spans_of_an_extension(directory, tail, 0);
        assert(whole[0] == directory[0]);
        assert(whole.len() > 1 && directory.len() > 1 ==> whole[1] == directory[1]);
        assert(lead(whole) == lead(directory));
        let list = spans(directory);
        let all = spans(whole);
        assert(list.len() <= all.len());
        assert(all.take(list.len() as int) =~= list);
        assert(parts(whole).take(parts(directory).len() as int) =~= parts(directory));
    }
}

/// The components of a text stay where the text goes on behind a separator.
proof fn spans_of_an_extension(text: Seq<char>, tail: Seq<char>, from: int)
    requires
        0 <= from <= text.len(),
        text.len() > 0,
        text.last() == '/' || (tail.len() > 0 && tail[0] == '/'),
    ensures
        spans_from(text, from).len() <= spans_from(text + tail, from).len(),
        spans_from(text + tail, from).take(spans_from(text, from).len() as int) == spans_from(
            text,
            from,
        ),
    decreases text.len() - from,
{
    let whole = text + tail;
    let short = spans_from(text, from);
    let long = spans_from(whole, from);
    if from < text.len() {
        segment_end_is_bounded(text, from);
        let end = segment_end(text, from);
        assert(whole.take(text.len() as int) =~= text);
        segment_end_is_bounded(whole, from);
        assert(segment_end(whole, from) == end) by {
            let other = segment_end(whole, from);
            if other < end {
                assert(text[other] == whole[other]);
            } else if other > end {
                assert(whole[end] == '/') by {
                    if end < text.len() {
                        assert(whole[end] == text[end]);
                    } else {
                        assert(text[end - 1] != '/');
                        assert(whole[end] == tail[0]);
                    }
                }
            }
        }
        let segment = text.subrange(from, end);
        assert(whole.subrange(from, end) =~= segment);
        if end + 1 <= text.len() {
            spans_of_an_extension(text, tail, end + 1);
        } else {
            assert(spans_from(text, end + 1) =~= Seq::empty());
        }
        let rest = spans_from(text, end + 1);
        let more = spans_from(whole, end + 1);
        assert(more.take(rest.len() as int) =~= rest);
        if is_silent(segment) {
        } else {
            let span = Span { part: part_of(segment), end };
            assert(short == seq![span] + rest);
            assert(long == seq![span] + more);
            assert(long.take(short.len() as int) =~= short) by {
                assert forall|i: int| 0 <= i < short.len() implies long[i] == short[i] by {
                    if i > 0 {
                        assert(more[i - 1] == more.take(rest.len() as int)[i - 1]);
                    }
                }
            }
        }
    } else {
        assert(short =~= Seq::empty());
        assert(long.take(0) =~= short);
    }
}

/// Paths sort by their components.
impl Sortable for FilePath {
    open spec fn place(&self, other: &Self) -> Order {
        parts_order(self.parts(), other.parts())
    }

    proof fn place_is_antisymmetric(left: &Self, right: &Self) {
        parts_order_is_antisymmetric(left.parts(), right.parts());
    }

    proof fn place_is_transitive(first: &Self, second: &Self, third: &Self) {
        parts_order_is_transitive(first.parts(), second.parts(), third.parts());
    }

    fn compare(&self, other: &Self) -> (order: Order) {
        let left = self.components();
        let right = other.components();
        compare_components(left.as_slice(), right.as_slice())
    }
}

/// What a text goes on with behind a separator adds its components behind those of the text.
proof fn spans_of_a_longer_text(text: Seq<char>, tail: Seq<char>, from: int)
    requires
        0 <= from <= text.len() + 1,
        text.len() > 0,
        text.last() == '/' || (tail.len() > 0 && tail[0] == '/'),
        from == text.len() + 1 ==> text.last() != '/',
    ensures
        spans_from(text + tail, from) == spans_from(text, from) + spans_from(
            text + tail,
            if text.last() == '/' {
                text.len() as int
            } else {
                text.len() as int + 1
            },
        ),
    decreases text.len() + 1 - from,
{
    let whole = text + tail;
    let next = if text.last() == '/' {
        text.len() as int
    } else {
        text.len() as int + 1
    };
    let behind = spans_from(whole, next);
    if from < text.len() {
        segment_end_is_bounded(text, from);
        let end = segment_end(text, from);
        segment_end_is_bounded(whole, from);
        assert(segment_end(whole, from) == end) by {
            let other = segment_end(whole, from);
            if other < end {
                assert(text[other] == whole[other]);
            } else if other > end {
                assert(whole[end] == '/') by {
                    if end < text.len() {
                        assert(whole[end] == text[end]);
                    } else {
                        assert(text[end - 1] != '/');
                        assert(whole[end] == tail[0]);
                    }
                }
            }
        }
        let segment = text.subrange(from, end);
        assert(whole.subrange(from, end) =~= segment);
        assert(end == text.len() ==> text.last() != '/') by {
            if end == text.len() {
                assert(text[end - 1] != '/');
            }
        }
        spans_of_a_longer_text(text, tail, end + 1);
        if !is_silent(segment) {
            let first = seq![Span { part: part_of(segment), end }];
            assert(first + (spans_from(text, end + 1) + behind) =~= first + spans_from(
                text,
                end + 1,
            ) + behind);
        }
    } else if from == text.len() {
        assert(spans_from(text, from) =~= Seq::empty());
        if text.last() != '/' {
            assert(whole[from] == '/');
            assert(segment_end(whole, from) == from);
            assert(whole.subrange(from, from).len() == 0);
        }
        assert(spans_from(whole, from) =~= spans_from(text, from) + behind);
    } else {
        assert(spans_from(text, from) =~= Seq::empty());
        assert(spans_from(whole, from) =~= spans_from(text, from) + behind);
    }
}

/// The components of a last segment.
proof fn spans_of_the_last_segment(whole: Seq<char>, from: int)
    requires
        0 <= from < whole.len(),
        forall|i: int| from <= i < whole.len() ==> #[trigger] whole[i] != '/',
    ensures
        spans_from(whole, from) == if is_silent(whole.skip(from)) {
            Seq::empty()
        } else {
            seq![Span { part: part_of(whole.skip(from)), end: whole.len() as int }]
        },
{
    segment_end_is_bounded(whole, from);
    let end = segment_end(whole, from);
    if end < whole.len() {
        assert(whole[end] != '/');
    }
    assert(whole.subrange(from, end) =~= whole.skip(from));
    assert(spans_from(whole, end + 1) =~= Seq::empty());
    assert(spans_from(whole, from) =~= if is_silent(whole.skip(from)) {
        Seq::empty()
    } else {
        seq![Span { part: part_of(whole.skip(from)), end: whole.len() as int }]
    });
}

/// The path of an entry is that of its directory with one more component, its name: `..` is the
/// component for the directory above, and `.` behind a directory adds none.
pub proof fn entries_add_their_name(directory: Seq<char>, name: Seq<char>)
    requires
        name.len() > 0,
        forall|i: int| 0 <= i < name.len() ==> #[trigger] name[i] != '/',
    ensures
        name != seq!['.'] && name != seq!['.', '.'] ==> parts(child_text(directory, name))
            == parts(directory).push(Part::Named(name)),
        name == seq!['.', '.'] ==> parts(child_text(directory, name)) == parts(directory).push(
            Part::Parent,
        ),
        name == seq!['.'] && directory.len() > 0 ==> parts(child_text(directory, name)) == parts(
            directory,
        ),
{
    let whole = child_text(directory, name);
    if directory.len() == 0 {
        assert(whole =~= name);
        assert(whole.skip(0) =~= name);
        spans_of_the_last_segment(whole, 0);
        assert(spans(directory) =~= Seq::empty());
        if name != seq!['.'] {
            if whole[0] == '.' && whole.len() == 1 {
                assert(name =~= seq!['.']);
            }
            assert(lead(whole) =~= Seq::empty());
            assert(parts(whole) =~= parts(directory).push(part_of(name)));
        }
    } else {
        let tail = whole.skip(directory.len() as int);
        assert(whole =~= directory + tail);
        assert(directory.last() == '/' || tail[0] == '/');
        spans_of_a_longer_text(directory, tail, 0);
        let next = whole.len() - name.len();
        assert(whole.skip(next) =~= name);
        assert forall|i: int| next <= i < whole.len() implies #[trigger] whole[i] != '/' by {
            assert(whole[i] == name[i - next]);
        }
        spans_of_the_last_segment(whole, next);
        assert(whole[0] == directory[0]);
        assert(directory.len() > 1 ==> whole[1] == directory[1]);
        assert(directory.len() == 1 && directory[0] != '/' ==> whole[1] == '/');
        assert(lead(whole) == lead(directory));
        if name == seq!['.'] {
            assert(parts(whole) =~= parts(directory));
        } else {
            assert(parts(whole) =~= parts(directory).push(part_of(name)));
        }
    }
}

/// Separators at the end of a path, and doubled ones, add no component, and a path starts at the
/// root exactly where its text starts with a separator.
pub proof fn separators_add_no_component(directory: Seq<char>)
    ensures
        directory.len() > 0 ==> parts(directory.push('/')) == parts(directory),
        parts(seq!['/']) == seq![Part::Root],
        parts(Seq::<char>::empty()) == Seq::<Part>::empty(),
        directory.len() > 0 && directory[0] == '/' ==> parts(directory).len() > 0 && parts(
            directory,
        )[0] == Part::Root,
        directory.len() > 0 && directory[0] != '/' ==> !parts(directory).contains(Part::Root),
{
    let root = seq!['/'];
    assert(segment_end(root, 0) == 0);
    assert(root.subrange(0, 0).len() == 0);
    assert(spans_from(root, 1) =~= Seq::empty());
    assert(spans(root) =~= seq![Span { part: Part::Root, end: 1 }]);
    assert(parts(root) =~= seq![Part::Root]);
    assert(parts(Seq::<char>::empty()) =~= Seq::<Part>::empty());
    if directory.len() > 0 {
        let whole = directory.push('/');
        assert(whole =~= directory + root);
        spans_of_a_longer_text(directory, root, 0);
        let next = if directory.last() == '/' {
            directory.len() as int
        } else {
            directory.len() as int + 1
        };
        if directory.last() == '/' {
            assert(whole[next] == '/');
            assert(segment_end(whole, next) == next);
            assert(whole.subrange(next, next).len() == 0);
            assert(spans_from(whole, next + 1) =~= Seq::empty());
        }
        assert(spans_from(whole, next) =~= Seq::empty());
        assert(whole[0] == directory[0]);
        assert(directory.len() > 1 ==> whole[1] == directory[1]);
        assert(lead(whole) == lead(directory));
        assert(parts(whole) =~= parts(directory));
        if directory[0] == '/' {
            assert(parts(directory)[0] == Part::Root);
        } else {
            no_root_behind_the_start(directory, 0);
            let list = spans(directory);
            if parts(directory).contains(Part::Root) {
                let k = choose|k: int|
                    0 <= k < parts(directory).len() && parts(directory)[k] == Part::Root;
                assert(list[k].part == Part::Root);
                if k >= lead(directory).len() {
                    assert(spans_from(directory, 0)[k - lead(directory).len()].part == Part::Root);
                }
            }
        }
    }
}

proof fn no_root_behind_the_start(text: Seq<char>, from: int)
    requires
        0 <= from,
    ensures
        forall|k: int|
            0 <= k < spans_from(text, from).len() ==> (#[trigger] spans_from(text, from)[k]).part
                != Part::Root && spans_from(text, from)[k].part != Part::Current,
    decreases text.len() + 1 - from,
{
    if from < text.len() {
        segment_end_is_bounded(text, from);
        let end = segment_end(text, from);
        no_root_behind_the_start(text, end + 1);
        let rest = spans_from(text, end + 1);
        let all = spans_from(text, from);
        assert forall|k: int| 0 <= k < all.len() implies (#[trigger] all[k]).part
            != Part::Root && all[k].part != Part::Current by {
            if is_silent(text.subrange(from, end)) {
                assert(all[k] == rest[k]);
            } else if k > 0 {
                assert(all[k] == rest[k - 1]);
            }
        }
    }
}

/// Paths compare at their first different component: there names compare as texts, the root comes
/// before a leading `.`, that before `..`, and that before every name. A path comes before what it
/// holds.
pub proof fn paths_compare_at_their_first_difference(
    common: Seq<Part>,
    left: Part,
    left_rest: Seq<Part>,
    right: Part,
    right_rest: Seq<Part>,
)
    ensures
        parts_order(common, common.push(right) + right_rest) == Order::Less,
        left matches Part::Named(a) ==> (right matches Part::Named(b) ==> (a != b ==> parts_order(
            common.push(left) + left_rest,
            common.push(right) + right_rest,
        ) == text::text_order(a, b))),
        left is Root && right !is Root ==> parts_order(
            common.push(left) + left_rest,
            common.push(right) + right_rest,
        ) == Order::Less,
        left is Current && (right is Parent || right is Named) ==> parts_order(
            common.push(left) + left_rest,
            common.push(right) + right_rest,
        ) == Order::Less,
        left is Parent && right is Named ==> parts_order(
            common.push(left) + left_rest,
            common.push(right) + right_rest,
        ) == Order::Less,
    decreases common.len(),
{
    let one = common.push(left) + left_rest;
    let two = common.push(right) + right_rest;
    if common.len() > 0 {
        let rest = common.drop_first();
        paths_compare_at_their_first_difference(rest, left, left_rest, right, right_rest);
        assert(one.drop_first() =~= rest.push(left) + left_rest);
        assert(two.drop_first() =~= rest.push(right) + right_rest);
        assert(one[0] == common[0] && two[0] == common[0]);
        part_order_is_an_order(common[0], common[0], common[0]);
    } else {
        assert(one[0] == left && two[0] == right);
        if let (Part::Named(a), Part::Named(b)) = (left, right) {
            text::text_order_is_antisymmetric(a, b);
        }
    }
}

/// A path leads to another exactly where the other goes on with further components.
pub proof fn paths_lead_to_what_goes_on_behind_them(path: Seq<Part>, base: Seq<Part>)
    ensures
        within(path, base) <==> exists|rest: Seq<Part>| path == #[trigger] (base + rest),
{
    if within(path, base) {
        let rest = path.skip(base.len() as int);
        assert(path =~= path.take(base.len() as int) + rest);
        assert(path == base + rest);
    }
    if exists|rest: Seq<Part>| path == #[trigger] (base + rest) {
        let rest = choose|rest: Seq<Part>| path == #[trigger] (base + rest);
        assert(path.take(base.len() as int) =~= base);
    }
}

/// Only the first component of a path can be the root.
pub proof fn root_comes_first(text: Seq<char>, at: int)
    requires
        0 < at < parts(text).len(),
    ensures
        parts(text)[at] != Part::Root,
{
    no_root_behind_the_start(text, 0);
    let first = lead(text).len() as int;
    assert(spans(text)[at] == spans_from(text, 0)[at - first]);
}

/// A leading `.` is a component of its own, and nothing else is that component.
pub proof fn leading_dots_are_components(text: Seq<char>, rest: Seq<char>)
    ensures
        parts(seq!['.']) == seq![Part::Current],
        text == seq!['.', '/'] + rest ==> parts(text).len() > 0 && parts(text)[0] == Part::Current,
        text.len() > 0 && text[0] != '.' ==> !parts(text).contains(Part::Current),
        text.len() > 1 && text[1] != '/' ==> !parts(text).contains(Part::Current),
        forall|k: int| 0 < k < parts(text).len() ==> #[trigger] parts(text)[k] != Part::Current,
{
    let dot = seq!['.'];
    reveal_with_fuel(segment_end, 2);
    assert(segment_end(dot, 0) == 1);
    assert(dot.subrange(0, 1) =~= dot);
    assert(spans_from(dot, 2) =~= Seq::empty());
    assert(spans(dot) =~= seq![Span { part: Part::Current, end: 1 }]);
    assert(parts(dot) =~= seq![Part::Current]);
    no_root_behind_the_start(text, 0);
    let first = lead(text).len() as int;
    assert forall|k: int| first <= k < parts(text).len() implies #[trigger] parts(text)[k]
        != Part::Current by {
        assert(spans(text)[k] == spans_from(text, 0)[k - first]);
    }
    if text == seq!['.', '/'] + rest {
        assert(text[0] == '.' && text[1] == '/');
        assert(spans(text)[0] == lead(text)[0]);
    }
}

} // verus!
