//! How well an entry matches the terms of a query, and the order in which matches are shown.

use vstd::prelude::*;

use crate::text::{
    self, compare_text, has_text, is_white_space, opposite_of, same_text, text_occurs_at, Order,
};

verus! {

/// How a name matches a query, from the best class to the worst.
#[derive(Clone, Copy, Debug, PartialEq, Eq, PartialOrd, Ord, Structural)]
pub enum RelevanceClass {
    ExactFileName,
    FileNamePrefix,
    FileNameSegmentPrefix,
    OtherFileNameSubstring,
    PathOnly,
}

/// The field by which results are sorted.
#[derive(Clone, Copy, Debug, PartialEq, Eq, Structural)]
pub enum SortField {
    Relevance,
    ModificationTime,
    CreationTime,
    FileName,
    FullPath,
    FileSize,
}

/// The direction in which results are sorted.
#[derive(Clone, Copy, Debug, PartialEq, Eq, Structural)]
pub enum SortDirection {
    Ascending,
    Descending,
}

/// The order that was asked for.
#[derive(Clone, Copy, Debug, PartialEq, Eq, Structural)]
pub struct SortOrder {
    pub field: SortField,
    pub direction: SortDirection,
}

impl Default for SortOrder {
    fn default() -> (sort: Self)
        ensures
            sort == default_sort(),
    {
        SortOrder { field: SortField::Relevance, direction: SortDirection::Ascending }
    }
}

/// The order of a query that asks for none: the most relevant first.
pub open spec fn default_sort() -> SortOrder {
    SortOrder { field: SortField::Relevance, direction: SortDirection::Ascending }
}

impl RelevanceClass {
    /// The place of a class, the best one first.
    pub open spec fn place(self) -> int {
        match self {
            RelevanceClass::ExactFileName => 0,
            RelevanceClass::FileNamePrefix => 1,
            RelevanceClass::FileNameSegmentPrefix => 2,
            RelevanceClass::OtherFileNameSubstring => 3,
            RelevanceClass::PathOnly => 4,
        }
    }

    fn number(self) -> (number: u8)
        ensures
            number == self.place(),
    {
        match self {
            RelevanceClass::ExactFileName => 0,
            RelevanceClass::FileNamePrefix => 1,
            RelevanceClass::FileNameSegmentPrefix => 2,
            RelevanceClass::OtherFileNameSubstring => 3,
            RelevanceClass::PathOnly => 4,
        }
    }
}

/// A character behind which a segment of a name starts.
pub open spec fn segment_separator(character: char) -> bool {
    ||| text::white_space(character)
    ||| character == '.'
    ||| character == '-'
    ||| character == '_'
    ||| character == '/'
    ||| character == '('
    ||| character == ')'
}

/// Tells whether a segment of a name starts behind a character.
pub fn is_segment_separator(character: char) -> (result: bool)
    ensures
        result == segment_separator(character),
{
    is_white_space(character) || character == '.' || character == '-' || character == '_'
        || character == '/' || character == '(' || character == ')'
}

/// A segment of the name starts at `at`.
pub open spec fn segment_start(name: Seq<char>, at: int) -> bool {
    at == 0 || segment_separator(name[at - 1])
}

/// One of the occurrences of `term` from `from` on starts a segment, where occurrences are taken
/// from left to right and do not overlap.
pub open spec fn segment_prefix_from(name: Seq<char>, term: Seq<char>, from: int) -> bool
    decreases name.len() - from,
{
    if term.len() == 0 {
        true
    } else if from + term.len() > name.len() {
        false
    } else if text::occurs_at(name, term, from) {
        segment_start(name, from) || segment_prefix_from(name, term, from + term.len())
    } else {
        segment_prefix_from(name, term, from + 1)
    }
}

/// Tells whether one of the occurrences of `term` starts a segment of the name.
pub fn has_segment_prefix(name: &[char], term: &[char]) -> (result: bool)
    ensures
        result == segment_prefix_from(name@, term@, 0),
{
    if term.len() == 0 {
        return true;
    }
    let mut from: usize = 0;
    while from < name.len() && term.len() <= name.len() - from
        invariant
            term.len() > 0,
            from <= name.len(),
            segment_prefix_from(name@, term@, 0) == segment_prefix_from(name@, term@, from as int),
        decreases name.len() - from,
    {
        if text_occurs_at(name, term, from) {
            if from == 0 || is_segment_separator(name[from - 1]) {
                return true;
            }
            from += term.len();
        } else {
            from += 1;
        }
    }
    false
}

/// Every term stands in the name or in the path.
pub open spec fn all_terms_match(
    name: Seq<char>,
    path: Seq<char>,
    terms: Seq<Seq<char>>,
) -> bool {
    forall|i: int|
        0 <= i < terms.len() ==> text::contains_text(name, #[trigger] terms[i])
            || text::contains_text(path, terms[i])
}

/// How many of the terms stand in the name.
pub open spec fn terms_in_name(name: Seq<char>, terms: Seq<Seq<char>>) -> nat
    decreases terms.len(),
{
    if terms.len() == 0 {
        0
    } else {
        terms_in_name(name, terms.drop_last()) + if text::contains_text(name, terms.last()) {
            1nat
        } else {
            0nat
        }
    }
}

/// The class of a name among the matches of a query.
pub open spec fn class_of(name: Seq<char>, terms: Seq<Seq<char>>) -> RelevanceClass {
    if terms.len() == 1 && name == terms[0] {
        RelevanceClass::ExactFileName
    } else if forall|i: int|
        0 <= i < terms.len() ==> text::occurs_at(name, #[trigger] terms[i], 0) {
        RelevanceClass::FileNamePrefix
    } else if forall|i: int|
        0 <= i < terms.len() ==> segment_prefix_from(name, #[trigger] terms[i], 0) {
        RelevanceClass::FileNameSegmentPrefix
    } else if terms_in_name(name, terms) > 0 {
        RelevanceClass::OtherFileNameSubstring
    } else {
        RelevanceClass::PathOnly
    }
}

/// Tells whether every term stands in the name or in the path.
pub fn matches_terms(name: &[char], path: &[char], terms: &Vec<Vec<char>>) -> (result: bool)
    ensures
        result == all_terms_match(name@, path@, text::texts(terms@)),
{
    let ghost list = text::texts(terms@);
    for i in 0..terms.len()
        invariant
            list == text::texts(terms@),
            forall|k: int|
                0 <= k < i ==> text::contains_text(name@, #[trigger] list[k])
                    || text::contains_text(path@, list[k]),
    {
        assert(list[i as int] == terms@[i as int]@);
        if !has_text(name, terms[i].as_slice()) && !has_text(path, terms[i].as_slice()) {
            return false;
        }
    }
    true
}

/// Counts the terms that stand in the name.
pub fn count_terms_in_name(name: &[char], terms: &Vec<Vec<char>>) -> (count: usize)
    ensures
        count == terms_in_name(name@, text::texts(terms@)),
        count <= terms@.len(),
{
    let ghost list = text::texts(terms@);
    let mut count: usize = 0;
    assert(list.take(0) =~= Seq::empty());
    for i in 0..terms.len()
        invariant
            list == text::texts(terms@),
            count <= i,
            count == terms_in_name(name@, list.take(i as int)),
    {
        assert(list.take(i + 1).drop_last() =~= list.take(i as int));
        assert(list.take(i + 1).last() == terms@[i as int]@);
        if has_text(name, terms[i].as_slice()) {
            count += 1;
        }
    }
    assert(list.take(list.len() as int) =~= list);
    count
}

/// Classifies a name among the matches of a query; `name_term_count` is the number of terms that
/// stand in the name.
pub fn classify(name: &[char], terms: &Vec<Vec<char>>, name_term_count: usize) -> (class:
    RelevanceClass)
    requires
        name_term_count == terms_in_name(name@, text::texts(terms@)),
    ensures
        class == class_of(name@, text::texts(terms@)),
{
    let ghost list = text::texts(terms@);
    assert forall|k: int| 0 <= k < list.len() implies #[trigger] list[k] == terms@[k]@ by {}
    if terms.len() == 1 && same_text(name, terms[0].as_slice()) {
        return RelevanceClass::ExactFileName;
    }
    let mut all_prefix = true;
    for i in 0..terms.len()
        invariant
            list == text::texts(terms@),
            all_prefix == (forall|k: int|
                0 <= k < i ==> text::occurs_at(name@, #[trigger] list[k], 0)),
    {
        assert(list[i as int] == terms@[i as int]@);
        all_prefix = all_prefix && text_occurs_at(name, terms[i].as_slice(), 0);
    }
    if all_prefix {
        return RelevanceClass::FileNamePrefix;
    }
    let mut all_segment = true;
    for i in 0..terms.len()
        invariant
            list == text::texts(terms@),
            all_segment == (forall|k: int|
                0 <= k < i ==> segment_prefix_from(name@, #[trigger] list[k], 0)),
    {
        assert(list[i as int] == terms@[i as int]@);
        all_segment = all_segment && has_segment_prefix(name, terms[i].as_slice());
    }
    if all_segment {
        RelevanceClass::FileNameSegmentPrefix
    } else if name_term_count > 0 {
        RelevanceClass::OtherFileNameSubstring
    } else {
        RelevanceClass::PathOnly
    }
}

/// What the order of matches depends on.
pub struct Rank {
    pub class: RelevanceClass,
    pub name_terms: int,
    pub recent_open: int,
    pub name: Seq<char>,
    pub path: Seq<char>,
    pub size: int,
    pub created: Option<i64>,
    pub modified: Option<i64>,
}

/// An outcome as it stands, or the opposite one for a descending order.
pub open spec fn directed(order: Order, direction: SortDirection) -> Order {
    match direction {
        SortDirection::Ascending => order,
        SortDirection::Descending => order.opposite(),
    }
}

/// How two times compare, where a missing one comes last in either direction.
pub open spec fn time_order(
    left: Option<i64>,
    right: Option<i64>,
    direction: SortDirection,
) -> Order {
    match (left, right) {
        (None, None) => Order::Equal,
        (None, Some(_)) => Order::Greater,
        (Some(_), None) => Order::Less,
        (Some(a), Some(b)) => directed(text::int_order(a as int, b as int), direction),
    }
}

/// How two matches compare by relevance: the better class, more terms in the name, the shorter
/// name, the shorter path, the more recent opening, and then the path.
pub open spec fn relevance_order(left: Rank, right: Rank) -> Order {
    text::int_order(left.class.place(), right.class.place()).or_tie(
        text::int_order(right.name_terms, left.name_terms),
    ).or_tie(text::int_order(left.name.len() as int, right.name.len() as int)).or_tie(
        text::int_order(left.path.len() as int, right.path.len() as int),
    ).or_tie(text::int_order(right.recent_open, left.recent_open)).or_tie(
        text::text_order(left.path, right.path),
    )
}

/// How two matches compare by the field that was asked for.
pub open spec fn field_order(sort: SortOrder, left: Rank, right: Rank) -> Order {
    match sort.field {
        SortField::Relevance => Order::Equal,
        SortField::ModificationTime => time_order(left.modified, right.modified, sort.direction),
        SortField::CreationTime => time_order(left.created, right.created, sort.direction),
        SortField::FileName => directed(
            text::text_order(left.name, right.name),
            sort.direction,
        ),
        SortField::FullPath => directed(
            text::text_order(left.path, right.path),
            sort.direction,
        ),
        SortField::FileSize => directed(
            text::int_order(left.size, right.size),
            sort.direction,
        ),
    }
}

/// How two matches compare: by relevance in the direction that was asked for, or by the field
/// that was asked for and then by relevance, name and path.
#[verifier::opaque]
pub open spec fn rank_order(sort: SortOrder, left: Rank, right: Rank) -> Order {
    match sort.field {
        SortField::Relevance => directed(relevance_order(left, right), sort.direction),
        _ => field_order(sort, left, right).or_tie(relevance_order(left, right)).or_tie(
            text::text_order(left.name, right.name),
        ).or_tie(text::text_order(left.path, right.path)),
    }
}

/// Three outcomes that agree with one total order: of the first value with the second, of the
/// second with the third, and of the first with the third.
pub open spec fn chain(a: Order, b: Order, c: Order) -> bool {
    &&& a == Order::Equal ==> c == b
    &&& b == Order::Equal ==> c == a
    &&& a == b ==> c == a
}

proof fn texts_chain(a: Seq<char>, b: Seq<char>, c: Seq<char>)
    ensures
        chain(
            text::text_order(a, b),
            text::text_order(b, c),
            text::text_order(a, c),
        ),
{
    text::text_order_is_antisymmetric(a, b);
    text::text_order_is_antisymmetric(b, c);
    text::text_order_is_antisymmetric(a, c);
    if text::text_order(a, b) == Order::Less && text::text_order(b, c)
        == Order::Less {
        text::text_order_is_transitive(a, b, c);
    }
    if text::text_order(a, b) == Order::Greater && text::text_order(b, c)
        == Order::Greater {
        text::text_order_is_transitive(c, b, a);
    }
}

/// The comparison of three pairs of values in two steps, of which the second breaks ties.
proof fn steps_chain(
    first: (Order, Order, Order, Order),
    tie: (Order, Order, Order, Order),
) -> (both: (Order, Order, Order, Order))
    requires
        chain(first.0, first.1, first.2),
        chain(tie.0, tie.1, tie.2),
        first.3 == first.0.opposite(),
        tie.3 == tie.0.opposite(),
    ensures
        both.0 == first.0.or_tie(tie.0),
        both.1 == first.1.or_tie(tie.1),
        both.2 == first.2.or_tie(tie.2),
        both.3 == first.3.or_tie(tie.3),
        chain(both.0, both.1, both.2),
        both.3 == both.0.opposite(),
{
    (
        first.0.or_tie(tie.0),
        first.1.or_tie(tie.1),
        first.2.or_tie(tie.2),
        first.3.or_tie(tie.3),
    )
}

/// The comparison of three integers, and of the first two the other way round.
proof fn integers_chain(a: int, b: int, c: int) -> (orders: (Order, Order, Order, Order))
    ensures
        orders.0 == text::int_order(a, b),
        orders.1 == text::int_order(b, c),
        orders.2 == text::int_order(a, c),
        orders.3 == text::int_order(b, a),
        chain(orders.0, orders.1, orders.2),
        orders.3 == orders.0.opposite(),
{
    (
        text::int_order(a, b),
        text::int_order(b, c),
        text::int_order(a, c),
        text::int_order(b, a),
    )
}

/// The comparison of three integers, the greater one first.
proof fn integers_chain_down(a: int, b: int, c: int) -> (orders: (Order, Order, Order, Order))
    ensures
        orders.0 == text::int_order(b, a),
        orders.1 == text::int_order(c, b),
        orders.2 == text::int_order(c, a),
        orders.3 == text::int_order(a, b),
        chain(orders.0, orders.1, orders.2),
        orders.3 == orders.0.opposite(),
{
    (
        text::int_order(b, a),
        text::int_order(c, b),
        text::int_order(c, a),
        text::int_order(a, b),
    )
}

proof fn relevance_chains(a: Rank, b: Rank, c: Rank)
    ensures
        chain(relevance_order(a, b), relevance_order(b, c), relevance_order(a, c)),
        relevance_order(b, a) == relevance_order(a, b).opposite(),
{
    let classes = integers_chain(a.class.place(), b.class.place(), c.class.place());
    let terms = integers_chain_down(a.name_terms, b.name_terms, c.name_terms);
    let names = integers_chain(
        a.name.len() as int,
        b.name.len() as int,
        c.name.len() as int,
    );
    let paths = integers_chain(
        a.path.len() as int,
        b.path.len() as int,
        c.path.len() as int,
    );
    let opens = integers_chain_down(a.recent_open, b.recent_open, c.recent_open);
    texts_chain(a.path, b.path, c.path);
    text::text_order_is_antisymmetric(a.path, b.path);
    let places = (
        text::text_order(a.path, b.path),
        text::text_order(b.path, c.path),
        text::text_order(a.path, c.path),
        text::text_order(b.path, a.path),
    );
    let one = steps_chain(classes, terms);
    let two = steps_chain(one, names);
    let three = steps_chain(two, paths);
    let four = steps_chain(three, opens);
    let five = steps_chain(four, places);
    assert(relevance_order(a, b) == five.0);
    assert(relevance_order(b, c) == five.1);
    assert(relevance_order(a, c) == five.2);
    assert(relevance_order(b, a) == five.3);
}

proof fn field_chains(sort: SortOrder, a: Rank, b: Rank, c: Rank)
    ensures
        chain(field_order(sort, a, b), field_order(sort, b, c), field_order(sort, a, c)),
        field_order(sort, b, a) == field_order(sort, a, b).opposite(),
{
    texts_chain(a.path, b.path, c.path);
    texts_chain(a.name, b.name, c.name);
    text::text_order_is_antisymmetric(a.path, b.path);
    text::text_order_is_antisymmetric(a.name, b.name);
}

/// For every sort order, the order of matches is total: exchanging two matches exchanges the
/// outcome, and the outcomes for three matches agree with each other.
pub proof fn rank_order_is_total(sort: SortOrder, a: Rank, b: Rank, c: Rank)
    ensures
        rank_order(sort, b, a) == rank_order(sort, a, b).opposite(),
        chain(rank_order(sort, a, b), rank_order(sort, b, c), rank_order(sort, a, c)),
{
    reveal(rank_order);
    relevance_chains(a, b, c);
    field_chains(sort, a, b, c);
    texts_chain(a.path, b.path, c.path);
    texts_chain(a.name, b.name, c.name);
    text::text_order_is_antisymmetric(a.path, b.path);
    text::text_order_is_antisymmetric(a.name, b.name);
    let fields = (
        field_order(sort, a, b),
        field_order(sort, b, c),
        field_order(sort, a, c),
        field_order(sort, b, a),
    );
    let relevances = (
        relevance_order(a, b),
        relevance_order(b, c),
        relevance_order(a, c),
        relevance_order(b, a),
    );
    let names = (
        text::text_order(a.name, b.name),
        text::text_order(b.name, c.name),
        text::text_order(a.name, c.name),
        text::text_order(b.name, a.name),
    );
    let paths = (
        text::text_order(a.path, b.path),
        text::text_order(b.path, c.path),
        text::text_order(a.path, c.path),
        text::text_order(b.path, a.path),
    );
    let one = steps_chain(fields, relevances);
    let two = steps_chain(one, names);
    let three = steps_chain(two, paths);
    if sort.field != SortField::Relevance {
        assert(rank_order(sort, a, b) == three.0);
        assert(rank_order(sort, b, c) == three.1);
        assert(rank_order(sort, a, c) == three.2);
        assert(rank_order(sort, b, a) == three.3);
    }
}

/// Matches compare as equal only where their normalized paths are the same.
pub proof fn equal_matches_share_their_path(sort: SortOrder, left: Rank, right: Rank)
    requires
        rank_order(sort, left, right) == Order::Equal,
    ensures
        left.path == right.path,
        left.class == right.class,
{
    reveal(rank_order);
    assert(relevance_order(left, right) == Order::Equal);
}

/// A better class comes first whatever else differs: neither recent openings nor lengths move a
/// match across classes.
pub proof fn better_class_comes_first(left: Rank, right: Rank)
    requires
        left.class.place() < right.class.place(),
    ensures
        rank_order(default_sort(), left, right) == Order::Less,
{
    reveal(rank_order);
}

/// Recent openings decide between two matches only where class, number of terms in the name and
/// both lengths agree, and there the more recent opening comes first.
pub proof fn recent_openings_break_late_ties(left: Rank, right: Rank)
    requires
        left.class == right.class,
        left.name_terms == right.name_terms,
        left.name.len() == right.name.len(),
        left.path.len() == right.path.len(),
        left.recent_open > right.recent_open,
    ensures
        rank_order(default_sort(), left, right) == Order::Less,
{
    reveal(rank_order);
}

/// Where class, number of terms or a length differ, recent openings do not matter.
pub proof fn recent_openings_never_outweigh_structure(
    left: Rank,
    right: Rank,
    left_open: int,
    right_open: int,
)
    requires
        left.class != right.class || left.name_terms != right.name_terms || left.name.len()
            != right.name.len() || left.path.len() != right.path.len(),
    ensures
        rank_order(default_sort(), left, right) == rank_order(
            default_sort(),
            (Rank { recent_open: left_open, ..left }),
            (Rank { recent_open: right_open, ..right }),
        ),
{
    reveal(rank_order);
}

/// A match without the time that is sorted by comes behind one that has it, in both directions.
pub proof fn missing_times_come_last(left: Rank, right: Rank, direction: SortDirection)
    ensures
        left.modified is Some && right.modified is None ==> rank_order(
            (SortOrder { field: SortField::ModificationTime, direction }),
            left,
            right,
        ) == Order::Less,
        left.created is Some && right.created is None ==> rank_order(
            (SortOrder { field: SortField::CreationTime, direction }),
            left,
            right,
        ) == Order::Less,
{
    reveal(rank_order);
}

/// Where two matches differ in the field that is sorted by and neither lacks it, the two
/// directions give opposite outcomes.
pub proof fn directions_are_opposite(field: SortField, left: Rank, right: Rank)
    requires
        field == SortField::ModificationTime ==> left.modified is Some && right.modified is Some,
        field == SortField::CreationTime ==> left.created is Some && right.created is Some,
        field != SortField::Relevance ==> field_order(
            (SortOrder { field, direction: SortDirection::Ascending }),
            left,
            right,
        ) != Order::Equal,
    ensures
        rank_order((SortOrder { field, direction: SortDirection::Descending }), left, right)
            == rank_order(
            (SortOrder { field, direction: SortDirection::Ascending }),
            left,
            right,
        ).opposite(),
{
    reveal(rank_order);
}

/// What the order of matches depends on, in executable code.
pub struct RankKey {
    pub class: RelevanceClass,
    pub name_term_count: usize,
    pub recent_open: u64,
    pub normalized_name: Vec<char>,
    pub canonical_path: Vec<char>,
    pub size: u64,
    pub created_ns: Option<i64>,
    pub modified_ns: Option<i64>,
}

impl View for RankKey {
    type V = Rank;

    open spec fn view(&self) -> Rank {
        Rank {
            class: self.class,
            name_terms: self.name_term_count as int,
            recent_open: self.recent_open as int,
            name: self.normalized_name@,
            path: self.canonical_path@,
            size: self.size as int,
            created: self.created_ns,
            modified: self.modified_ns,
        }
    }
}

fn compare_unsigned(left: u64, right: u64) -> (order: Order)
    ensures
        order == text::int_order(left as int, right as int),
{
    if left < right {
        Order::Less
    } else if left == right {
        Order::Equal
    } else {
        Order::Greater
    }
}

fn compare_count(left: usize, right: usize) -> (order: Order)
    ensures
        order == text::int_order(left as int, right as int),
{
    if left < right {
        Order::Less
    } else if left == right {
        Order::Equal
    } else {
        Order::Greater
    }
}

fn direct(order: Order, direction: SortDirection) -> (result: Order)
    ensures
        result == directed(order, direction),
{
    match direction {
        SortDirection::Ascending => order,
        SortDirection::Descending => opposite_of(order),
    }
}

fn compare_time(left: Option<i64>, right: Option<i64>, direction: SortDirection) -> (order: Order)
    ensures
        order == time_order(left, right, direction),
{
    match (left, right) {
        (None, None) => Order::Equal,
        (None, Some(_)) => Order::Greater,
        (Some(_), None) => Order::Less,
        (Some(a), Some(b)) => {
            let order = if a < b {
                Order::Less
            } else if a == b {
                Order::Equal
            } else {
                Order::Greater
            };
            direct(order, direction)
        },
    }
}

/// Compares two matches by relevance.
pub fn compare_relevance(left: &RankKey, right: &RankKey) -> (order: Order)
    ensures
        order == relevance_order(left@, right@),
{
    let a: u8 = left.class.number();
    let b: u8 = right.class.number();
    if a < b {
        return Order::Less;
    }
    if a > b {
        return Order::Greater;
    }
    let terms = compare_count(right.name_term_count, left.name_term_count);
    if terms != Order::Equal {
        return terms;
    }
    let names = compare_count(left.normalized_name.len(), right.normalized_name.len());
    if names != Order::Equal {
        return names;
    }
    let paths = compare_count(left.canonical_path.len(), right.canonical_path.len());
    if paths != Order::Equal {
        return paths;
    }
    let opens = compare_unsigned(right.recent_open, left.recent_open);
    if opens != Order::Equal {
        return opens;
    }
    compare_text(left.canonical_path.as_slice(), right.canonical_path.as_slice())
}

/// Compares two matches by the field that was asked for.
pub fn compare_selected(left: &RankKey, right: &RankKey, sort: SortOrder) -> (order: Order)
    ensures
        order == field_order(sort, left@, right@),
{
    match sort.field {
        SortField::Relevance => Order::Equal,
        SortField::ModificationTime => compare_time(
            left.modified_ns,
            right.modified_ns,
            sort.direction,
        ),
        SortField::CreationTime => compare_time(left.created_ns, right.created_ns, sort.direction),
        SortField::FileName => direct(
            compare_text(left.normalized_name.as_slice(), right.normalized_name.as_slice()),
            sort.direction,
        ),
        SortField::FullPath => direct(
            compare_text(left.canonical_path.as_slice(), right.canonical_path.as_slice()),
            sort.direction,
        ),
        SortField::FileSize => direct(compare_unsigned(left.size, right.size), sort.direction),
    }
}

/// Compares two matches in the order that was asked for.
pub fn compare_keys(left: &RankKey, right: &RankKey, sort: SortOrder) -> (order: Order)
    ensures
        order == rank_order(sort, left@, right@),
{
    reveal(rank_order);
    let relevance = compare_relevance(left, right);
    if sort.field == SortField::Relevance {
        return direct(relevance, sort.direction);
    }
    let selected = compare_selected(left, right, sort);
    if selected != Order::Equal {
        return selected;
    }
    if relevance != Order::Equal {
        return relevance;
    }
    let names = compare_text(left.normalized_name.as_slice(), right.normalized_name.as_slice());
    if names != Order::Equal {
        return names;
    }
    compare_text(left.canonical_path.as_slice(), right.canonical_path.as_slice())
}

proof fn one_term_of_many(name: Seq<char>, terms: Seq<Seq<char>>, at: int)
    requires
        0 <= at < terms.len(),
    ensures
        terms_in_name(name, terms) == terms_in_name(
            name,
            terms.remove(at),
        ) + if text::contains_text(name, terms[at]) {
            1nat
        } else {
            0nat
        },
    decreases terms.len(),
{
    let rest = terms.drop_last();
    if at == rest.len() {
        assert(terms.remove(at) =~= rest);
    } else {
        one_term_of_many(name, rest, at);
        assert(terms.remove(at).drop_last() =~= rest.remove(at));
        assert(terms.remove(at).last() == terms.last());
    }
}

proof fn terms_count_in_any_order(name: Seq<char>, left: Seq<Seq<char>>, right: Seq<Seq<char>>)
    requires
        left.to_multiset() == right.to_multiset(),
    ensures
        terms_in_name(name, left) == terms_in_name(name, right),
        left.len() == right.len(),
    decreases left.len(),
{
    broadcast use vstd::seq_lib::group_to_multiset_ensures;

    assert(left.len() == left.to_multiset().len());
    assert(right.len() == right.to_multiset().len());
    if left.len() > 0 {
        let last = left.len() - 1;
        let term = left[last];
        assert(left.contains(term));
        assert(left.to_multiset().count(term) > 0);
        assert(right.contains(term));
        let at = choose|at: int| 0 <= at < right.len() && right[at] == term;
        assert(left.remove(last) =~= left.drop_last());
        assert(left.drop_last().to_multiset() =~= right.remove(at).to_multiset());
        terms_count_in_any_order(name, left.drop_last(), right.remove(at));
        one_term_of_many(name, right, at);
    }
}

/// The order of the terms of a query matters neither for whether a name and path match nor for how
/// well they do.
pub proof fn terms_come_in_any_order(
    name: Seq<char>,
    path: Seq<char>,
    left: Seq<Seq<char>>,
    right: Seq<Seq<char>>,
)
    requires
        left.to_multiset() == right.to_multiset(),
    ensures
        all_terms_match(name, path, left) == all_terms_match(name, path, right),
        class_of(name, left) == class_of(name, right),
        terms_in_name(name, left) == terms_in_name(name, right),
{
    terms_count_in_any_order(name, left, right);
    same_terms_hold_alike(name, path, left, right);
    same_terms_hold_alike(name, path, right, left);
}

/// What holds of every term in one list holds of every term in another order.
proof fn same_terms_hold_alike(
    name: Seq<char>,
    path: Seq<char>,
    left: Seq<Seq<char>>,
    right: Seq<Seq<char>>,
)
    requires
        left.to_multiset() == right.to_multiset(),
        left.len() == right.len(),
    ensures
        all_terms_match(name, path, left) ==> all_terms_match(name, path, right),
        (forall|i: int| 0 <= i < left.len() ==> text::occurs_at(name, #[trigger] left[i], 0)) ==> (
        forall|i: int| 0 <= i < right.len() ==> text::occurs_at(name, #[trigger] right[i], 0)),
        (forall|i: int| 0 <= i < left.len() ==> segment_prefix_from(name, #[trigger] left[i], 0))
            ==> (forall|i: int|
            0 <= i < right.len() ==> segment_prefix_from(name, #[trigger] right[i], 0)),
        left.len() == 1 ==> left[0] == right[0],
{
    broadcast use vstd::seq_lib::group_to_multiset_ensures;

    assert forall|i: int| 0 <= i < right.len() implies left.contains(#[trigger] right[i]) by {
        assert(right.contains(right[i]));
        assert(right.to_multiset().count(right[i]) > 0);
    }
    if left.len() == 1 {
        assert(left.contains(right[0]));
    }
    assert forall|i: int|
        0 <= i < right.len() && all_terms_match(name, path, left) implies text::contains_text(
        name,
        #[trigger] right[i],
    ) || text::contains_text(path, right[i]) by {
        assert(left.contains(right[i]));
    }
}

/// An occurrence of a term at or behind `from` starts a segment.
pub open spec fn starts_a_segment(name: Seq<char>, term: Seq<char>, from: int) -> bool {
    exists|at: int|
        from <= at && #[trigger] text::occurs_at(name, term, at) && segment_start(name, at)
}

/// A term without separators is a prefix of a segment exactly where one of its occurrences, be they
/// overlapping or not, starts a segment.
pub proof fn segment_prefixes_start_segments(name: Seq<char>, term: Seq<char>)
    requires
        term.len() > 0,
        forall|i: int| 0 <= i < term.len() ==> !segment_separator(#[trigger] term[i]),
    ensures
        segment_prefix_from(name, term, 0) <==> exists|at: int| #[trigger]
            text::occurs_at(name, term, at) && segment_start(name, at),
{
    segment_prefixes_from(name, term, 0);
    if exists|at: int| #[trigger] text::occurs_at(name, term, at) && segment_start(name, at) {
        let at = choose|at: int| #[trigger]
            text::occurs_at(name, term, at) && segment_start(name, at);
        assert(0 <= at && text::occurs_at(name, term, at));
    }
}

proof fn segment_prefixes_from(name: Seq<char>, term: Seq<char>, from: int)
    requires
        term.len() > 0,
        0 <= from,
        forall|i: int| 0 <= i < term.len() ==> !segment_separator(#[trigger] term[i]),
    ensures
        segment_prefix_from(name, term, from) <==> starts_a_segment(name, term, from),
    decreases name.len() - from,
{
    if from + term.len() > name.len() {
    } else if text::occurs_at(name, term, from) {
        let next = from + term.len();
        segment_prefixes_from(name, term, next);
        if starts_a_segment(name, term, next) {
            let at = choose|at: int|
                next <= at && #[trigger] text::occurs_at(name, term, at) && segment_start(name, at);
            assert(from <= at && text::occurs_at(name, term, at));
        }
        if starts_a_segment(name, term, from) && !segment_start(name, from) {
            let at = choose|at: int|
                from <= at && #[trigger] text::occurs_at(name, term, at) && segment_start(name, at);
            if at < next {
                assert(name.subrange(from, next)[at - 1 - from] == name[at - 1]);
                assert(!segment_separator(term[at - 1 - from]));
            }
            assert(next <= at && text::occurs_at(name, term, at));
        }
    } else {
        segment_prefixes_from(name, term, from + 1);
        if starts_a_segment(name, term, from) {
            let at = choose|at: int|
                from <= at && #[trigger] text::occurs_at(name, term, at) && segment_start(name, at);
            assert(from + 1 <= at && text::occurs_at(name, term, at));
        }
        if starts_a_segment(name, term, from + 1) {
            let at = choose|at: int|
                from + 1 <= at && #[trigger] text::occurs_at(name, term, at) && segment_start(
                    name,
                    at,
                );
            assert(from <= at && text::occurs_at(name, term, at));
        }
    }
}

/// How two matches compare by all that comes before recent openings: the field that was asked for,
/// the class, the number of terms in the name and both lengths.
pub open spec fn structural_order(sort: SortOrder, left: Rank, right: Rank) -> Order {
    let structure = text::int_order(left.class.place(), right.class.place()).or_tie(
        text::int_order(right.name_terms, left.name_terms),
    ).or_tie(text::int_order(left.name.len() as int, right.name.len() as int)).or_tie(
        text::int_order(left.path.len() as int, right.path.len() as int),
    );
    match sort.field {
        SortField::Relevance => directed(structure, sort.direction),
        _ => field_order(sort, left, right).or_tie(structure),
    }
}

/// The structural order is total, the order of matches refines it, and matches that it does not
/// tell apart agree on class, number of terms in the name and both lengths.
pub proof fn structural_order_is_total(sort: SortOrder, a: Rank, b: Rank, c: Rank)
    ensures
        structural_order(sort, b, a) == structural_order(sort, a, b).opposite(),
        chain(
            structural_order(sort, a, b),
            structural_order(sort, b, c),
            structural_order(sort, a, c),
        ),
        rank_order(sort, a, b) != Order::Greater ==> structural_order(sort, a, b)
            != Order::Greater,
        structural_order(sort, a, b) == Order::Equal ==> a.class == b.class && a.name_terms
            == b.name_terms && a.name.len() == b.name.len() && a.path.len() == b.path.len(),
{
    reveal(rank_order);
    let classes = integers_chain(a.class.place(), b.class.place(), c.class.place());
    let terms = integers_chain_down(a.name_terms, b.name_terms, c.name_terms);
    let names = integers_chain(
        a.name.len() as int,
        b.name.len() as int,
        c.name.len() as int,
    );
    let paths = integers_chain(
        a.path.len() as int,
        b.path.len() as int,
        c.path.len() as int,
    );
    let one = steps_chain(classes, terms);
    let two = steps_chain(one, names);
    let three = steps_chain(two, paths);
    field_chains(sort, a, b, c);
    let fields = (
        field_order(sort, a, b),
        field_order(sort, b, c),
        field_order(sort, a, c),
        field_order(sort, b, a),
    );
    let all = steps_chain(fields, three);
    if sort.field != SortField::Relevance {
        assert(structural_order(sort, a, b) == all.0);
        assert(structural_order(sort, b, c) == all.1);
        assert(structural_order(sort, a, c) == all.2);
        assert(structural_order(sort, b, a) == all.3);
    }
}

/// Times in ascending order come out oldest first and in descending order newest first, for
/// modification and for creation.
pub proof fn times_sort_by_age(left: Rank, right: Rank, earlier: i64, later: i64)
    requires
        earlier < later,
    ensures
        left.modified == Some(earlier) && right.modified == Some(later) ==> rank_order(
            (SortOrder {
                field: SortField::ModificationTime,
                direction: SortDirection::Ascending,
            }),
            left,
            right,
        ) == Order::Less && rank_order(
            (SortOrder {
                field: SortField::ModificationTime,
                direction: SortDirection::Descending,
            }),
            right,
            left,
        ) == Order::Less,
        left.created == Some(earlier) && right.created == Some(later) ==> rank_order(
            (SortOrder { field: SortField::CreationTime, direction: SortDirection::Ascending }),
            left,
            right,
        ) == Order::Less && rank_order(
            (SortOrder { field: SortField::CreationTime, direction: SortDirection::Descending }),
            right,
            left,
        ) == Order::Less,
{
    reveal(rank_order);
}

/// Sizes in ascending order come out smallest first and in descending order largest first.
pub proof fn sizes_sort_by_amount(left: Rank, right: Rank)
    requires
        left.size < right.size,
    ensures
        rank_order(
            (SortOrder { field: SortField::FileSize, direction: SortDirection::Ascending }),
            left,
            right,
        ) == Order::Less,
        rank_order(
            (SortOrder { field: SortField::FileSize, direction: SortDirection::Descending }),
            right,
            left,
        ) == Order::Less,
{
    reveal(rank_order);
}

/// Names and paths in ascending order come out as texts do: behind a common beginning the smaller
/// character comes first, and a text comes before any that goes on behind it. In descending order
/// they come out the other way round.
pub proof fn names_and_paths_sort_as_texts(
    left: Rank,
    right: Rank,
    common: Seq<char>,
    one: char,
    one_rest: Seq<char>,
    two: char,
    two_rest: Seq<char>,
    direction: SortDirection,
)
    ensures
        left.name == common.push(one) + one_rest && right.name == common.push(two) + two_rest && (
        one as u32) < (two as u32) ==> rank_order(
            (SortOrder { field: SortField::FileName, direction }),
            left,
            right,
        ) == if direction == SortDirection::Ascending {
            Order::Less
        } else {
            Order::Greater
        },
        left.name == common && right.name == common.push(two) + two_rest ==> rank_order(
            (SortOrder { field: SortField::FileName, direction }),
            left,
            right,
        ) == if direction == SortDirection::Ascending {
            Order::Less
        } else {
            Order::Greater
        },
        left.path == common.push(one) + one_rest && right.path == common.push(two) + two_rest && (
        one as u32) < (two as u32) ==> rank_order(
            (SortOrder { field: SortField::FullPath, direction }),
            left,
            right,
        ) == if direction == SortDirection::Ascending {
            Order::Less
        } else {
            Order::Greater
        },
        left.path == common && right.path == common.push(two) + two_rest ==> rank_order(
            (SortOrder { field: SortField::FullPath, direction }),
            left,
            right,
        ) == if direction == SortDirection::Ascending {
            Order::Less
        } else {
            Order::Greater
        },
{
    reveal(rank_order);
    text::texts_compare_at_their_first_difference(common, one, one_rest, two, two_rest);
}

/// Where the field that is sorted by ties, relevance decides in its own order, whatever the
/// direction.
pub proof fn relevance_breaks_ties_of_a_field(sort: SortOrder, left: Rank, right: Rank)
    requires
        sort.field != SortField::Relevance,
        sort.field == SortField::ModificationTime ==> left.modified == right.modified,
        sort.field == SortField::CreationTime ==> left.created == right.created,
        sort.field == SortField::FileName ==> left.name == right.name,
        sort.field == SortField::FullPath ==> left.path == right.path,
        sort.field == SortField::FileSize ==> left.size == right.size,
        rank_order(default_sort(), left, right) != Order::Equal,
    ensures
        rank_order(sort, left, right) == rank_order(default_sort(), left, right),
{
    reveal(rank_order);
}

/// The classes come in their locked order: an exact name, a prefix of the name, a prefix of one of
/// its segments, any other part of the name, and the path alone.
pub proof fn classes_come_in_their_order(left: Rank, right: Rank)
    ensures
        left.class is ExactFileName && right.class !is ExactFileName ==> rank_order(
            default_sort(),
            left,
            right,
        ) == Order::Less,
        left.class is FileNamePrefix && (right.class is FileNameSegmentPrefix
            || right.class is OtherFileNameSubstring || right.class is PathOnly) ==> rank_order(
            default_sort(),
            left,
            right,
        ) == Order::Less,
        left.class is FileNameSegmentPrefix && (right.class is OtherFileNameSubstring
            || right.class is PathOnly) ==> rank_order(default_sort(), left, right)
            == Order::Less,
        left.class is OtherFileNameSubstring && right.class is PathOnly ==> rank_order(
            default_sort(),
            left,
            right,
        ) == Order::Less,
{
    reveal(rank_order);
}

/// Within a class more terms in the name come first, then the shorter name, then the shorter path,
/// then the more recent opening and last the path that comes first as a text.
pub proof fn ties_are_broken_in_their_order(left: Rank, right: Rank)
    requires
        left.class == right.class,
    ensures
        left.name_terms > right.name_terms ==> rank_order(default_sort(), left, right)
            == Order::Less,
        left.name_terms == right.name_terms ==> {
            &&& left.name.len() < right.name.len() ==> rank_order(default_sort(), left, right)
                == Order::Less
            &&& left.name.len() == right.name.len() ==> {
                &&& left.path.len() < right.path.len() ==> rank_order(
                    default_sort(),
                    left,
                    right,
                ) == Order::Less
                &&& left.path.len() == right.path.len() ==> {
                    &&& left.recent_open > right.recent_open ==> rank_order(
                        default_sort(),
                        left,
                        right,
                    ) == Order::Less
                    &&& left.recent_open == right.recent_open ==> rank_order(
                        default_sort(),
                        left,
                        right,
                    ) == text::text_order(left.path, right.path)
                }
            }
        },
{
    reveal(rank_order);
}

/// The descending order by relevance is the ascending one the other way round.
pub proof fn descending_relevance_turns_the_order(left: Rank, right: Rank)
    ensures
        rank_order(
            (SortOrder { field: SortField::Relevance, direction: SortDirection::Descending }),
            left,
            right,
        ) == rank_order(default_sort(), right, left),
{
    reveal(rank_order);
    relevance_chains(left, right, right);
}

/// The places of the terms that stand in a name.
pub open spec fn places_in_name(name: Seq<char>, terms: Seq<Seq<char>>) -> Set<int> {
    Set::new(
        |i: int|
            0 <= i < terms.len() && text::can_be_cut_around(name, terms[i]),
    )
}

/// As many terms count for a name as there are places of terms that stand in it.
pub proof fn every_term_in_the_name_counts(name: Seq<char>, terms: Seq<Seq<char>>)
    ensures
        places_in_name(name, terms).finite(),
        places_in_name(name, terms).len() == terms_in_name(name, terms),
    decreases terms.len(),
{
    let all = places_in_name(name, terms);
    if terms.len() == 0 {
        assert(all =~= Set::<int>::empty());
    } else {
        let rest = terms.drop_last();
        let last = terms.len() - 1;
        every_term_in_the_name_counts(name, rest);
        let before = places_in_name(name, rest);
        text::text_stands_where_the_whole_can_be_cut(name, terms[last]);
        assert forall|i: int| 0 <= i < rest.len() implies rest[i] == terms[i] by {}
        if text::contains_text(name, terms.last()) {
            assert(all =~= before.insert(last));
            assert(!before.contains(last));
        } else {
            assert(all =~= before);
        }
    }
}

/// A name and a path match exactly where every term, the first as the last, can be cut out of the
/// name or out of the path.
pub proof fn every_term_has_to_match(name: Seq<char>, path: Seq<char>, terms: Seq<Seq<char>>)
    ensures
        all_terms_match(name, path, terms) <==> forall|i: int|
            0 <= i < terms.len() ==> text::can_be_cut_around(name, #[trigger] terms[i])
                || text::can_be_cut_around(path, terms[i]),
{
    assert forall|i: int| 0 <= i < terms.len() implies (text::contains_text(
        name,
        #[trigger] terms[i],
    ) <==> text::can_be_cut_around(name, terms[i])) && (text::contains_text(path, terms[i])
        <==> text::can_be_cut_around(path, terms[i])) by {
        text::text_stands_where_the_whole_can_be_cut(name, terms[i]);
        text::text_stands_where_the_whole_can_be_cut(path, terms[i]);
    }
}

/// The class of a name for a single term: the term itself is exact, a name that goes on behind it
/// has it as a prefix, and a name that does neither is in a lower class.
pub proof fn one_term_classifies_by_its_place(term: Seq<char>, rest: Seq<char>, name: Seq<char>)
    requires
        rest.len() > 0,
    ensures
        class_of(term, seq![term]) is ExactFileName,
        class_of(term + rest, seq![term]) is FileNamePrefix,
        class_of(name, seq![term]) is ExactFileName ==> name == term,
        class_of(name, seq![term]) is FileNamePrefix ==> text::goes_on_behind(name, term),
        class_of(name, seq![term]) is PathOnly <==> !text::contains_text(name, term),
{
    let one = seq![term];
    let longer = term + rest;
    assert(longer.subrange(0, term.len() as int) =~= term);
    assert(text::occurs_at(longer, term, 0));
    assert(longer.len() != term.len());
    assert forall|i: int| 0 <= i < one.len() implies text::occurs_at(
        longer,
        #[trigger] one[i],
        0,
    ) by {}
    assert(one.drop_last() =~= Seq::<Seq<char>>::empty());
    assert(terms_in_name(name, one.drop_last()) == 0);
    if class_of(name, one) is FileNamePrefix {
        assert(text::occurs_at(name, one[0], 0));
        text::beginnings_are_gone_on_behind(name, term);
    }
    if text::occurs_at(name, term, 0) {
        assert(text::contains_text(name, term));
    }
    if !text::contains_text(name, term) {
        segment_prefixes_occur(name, term, 0);
        if name == term {
            assert(name.subrange(0, term.len() as int) =~= term);
            assert(text::occurs_at(name, term, 0));
        }
        assert(!text::occurs_at(name, one[0], 0));
        assert(!segment_prefix_from(name, one[0], 0)) by {
            if term.len() == 0 {
                assert(name.subrange(0, 0) =~= term);
                assert(text::occurs_at(name, term, 0));
            }
        }
    }
}

proof fn segment_prefixes_occur(name: Seq<char>, term: Seq<char>, from: int)
    requires
        0 <= from,
    ensures
        segment_prefix_from(name, term, from) && term.len() > 0 ==> text::contains_text(name, term),
    decreases name.len() - from,
{
    if term.len() > 0 && from + term.len() <= name.len() {
        if text::occurs_at(name, term, from) {
        } else {
            segment_prefixes_occur(name, term, from + 1);
        }
    }
}

/// The class of a name for several terms is the best that every one of them allows: a prefix of the
/// name or of a segment has to be one for each term, and one term in the name is enough for the
/// name to count at all.
pub proof fn several_terms_share_a_class(name: Seq<char>, terms: Seq<Seq<char>>)
    requires
        terms.len() > 1,
    ensures
        class_of(name, terms) !is ExactFileName,
        class_of(name, terms) is FileNamePrefix <==> forall|i: int|
            0 <= i < terms.len() ==> text::goes_on_behind(name, #[trigger] terms[i]),
        class_of(name, terms) is FileNamePrefix || class_of(name, terms) is FileNameSegmentPrefix
            <==> (forall|i: int|
            0 <= i < terms.len() ==> text::goes_on_behind(name, #[trigger] terms[i])) || (forall|
            i: int,
        | 0 <= i < terms.len() ==> segment_prefix_from(name, #[trigger] terms[i], 0)),
        class_of(name, terms) is OtherFileNameSubstring ==> exists|i: int|
            0 <= i < terms.len() && text::contains_text(name, #[trigger] terms[i]),
        class_of(name, terms) is PathOnly ==> forall|i: int|
            0 <= i < terms.len() ==> !text::contains_text(name, #[trigger] terms[i]),
{
    assert forall|i: int| 0 <= i < terms.len() implies (text::occurs_at(
        name,
        #[trigger] terms[i],
        0,
    ) <==> text::goes_on_behind(name, terms[i])) by {
        text::beginnings_are_gone_on_behind(name, terms[i]);
    }
    terms_in_name_are_there(name, terms);
}

proof fn terms_in_name_are_there(name: Seq<char>, terms: Seq<Seq<char>>)
    ensures
        terms_in_name(name, terms) > 0 <==> exists|i: int|
            0 <= i < terms.len() && text::contains_text(name, #[trigger] terms[i]),
    decreases terms.len(),
{
    if terms.len() > 0 {
        let rest = terms.drop_last();
        let last = terms.len() - 1;
        terms_in_name_are_there(name, rest);
        if terms_in_name(name, rest) > 0 {
            let i = choose|i: int|
                0 <= i < rest.len() && text::contains_text(name, #[trigger] rest[i]);
            assert(terms[i] == rest[i]);
        }
        if text::contains_text(name, terms.last()) {
            assert(text::contains_text(name, terms[last]));
        }
        if exists|i: int| 0 <= i < terms.len() && text::contains_text(name, #[trigger] terms[i]) {
            let i = choose|i: int|
                0 <= i < terms.len() && text::contains_text(name, #[trigger] terms[i]);
            if i < last {
                assert(rest[i] == terms[i]);
            }
        }
    }
}

/// A segment of a name starts at its beginning and behind white space, a dot, a hyphen, an
/// underscore, a slash and either parenthesis, and nowhere else.
pub proof fn segments_start_behind_separators(name: Seq<char>, separator: char, rest: Seq<char>)
    ensures
        segment_start(name, 0),
        text::white_space(separator) ==> segment_start(
            name.push(separator) + rest,
            name.len() as int + 1,
        ),
        separator == '.' || separator == '-' || separator == '_' || separator == '/' || separator
            == '(' || separator == ')' ==> segment_start(
            name.push(separator) + rest,
            name.len() as int + 1,
        ),
        !text::white_space(separator) && separator != '.' && separator != '-' && separator != '_'
            && separator != '/' && separator != '(' && separator != ')' ==> !segment_start(
            name.push(separator) + rest,
            name.len() as int + 1,
        ),
{
    let whole = name.push(separator) + rest;
    assert(whole[name.len() as int] == separator);
}

} // verus!
