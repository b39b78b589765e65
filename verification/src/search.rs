//! How well a name matches a query.

use fuzzy_matcher::FuzzyMatcher;
use vstd::prelude::*;

use crate::table::TextMap;
use crate::text::{begins, chars_of, lowercase, starts_with, to_lowercase};
use crate::text_laws::a_beginning_is_found_by_its_characters;

verus! {

/// The length of the longest text whose score fits the matcher's numbers.
pub const LONGEST: usize = 0x200_0000;

/// The score of a name that begins with the query, without its bonus.
pub const PREFIX_SCORE: i64 = 1_000_000;

/// The number of launches beyond which a name gets no more of a bonus.
pub const MOST_COUNTED: i64 = 100;

/// The score of a fuzzy match: what a new matcher of `fuzzy_matcher` with its
/// default settings gives a pattern in a text.
pub uninterp spec fn skim_score(choice: Seq<char>, pattern: Seq<char>) -> Option<i64>;

/// Whether a text holds an upper-case ASCII letter.
pub open spec fn has_upper(s: Seq<char>) -> bool {
    exists|i: int| 0 <= i < s.len() && 'A' <= #[trigger] s[i] <= 'Z'
}

/// Whether two characters match. Without `exact` the case of ASCII letters
/// does not count.
pub open spec fn chars_match(a: char, b: char, exact: bool) -> bool {
    if exact {
        a == b
    } else {
        crate::text::ascii_lower_char(a) == crate::text::ascii_lower_char(b)
    }
}

/// Whether the characters of a pattern stand in a text in their order, with or
/// without others between them.
pub open spec fn threaded(choice: Seq<char>, pattern: Seq<char>, exact: bool) -> bool
    decreases choice.len(),
{
    if pattern.len() == 0 {
        true
    } else if choice.len() == 0 {
        false
    } else if chars_match(choice[0], pattern[0], exact) {
        threaded(choice.drop_first(), pattern.drop_first(), exact)
    } else {
        threaded(choice.drop_first(), pattern, exact)
    }
}

/// `fuzzy_matcher::skim::SkimMatcherV2::fuzzy_match` on a new matcher: the
/// score depends on the two texts alone, as the matcher's documentation gives
/// it. (A matcher that has been used keeps bonuses of earlier texts in cells
/// that it does not clear, and they can leak into later scores.) There is one if and only if the
/// characters of the pattern stand in the text in their order, where the case
/// of ASCII letters counts only if the pattern has upper-case ones. No score
/// is beyond what its 32-bit numbers hold, and no character of the pattern
/// earns more than 16 points and a bonus of 16.
#[verifier::external_body]
fn fuzzy_match(choice: &str, pattern: &str) -> (r: Option<i64>)
    requires
        choice@.len() <= LONGEST,
        pattern@.len() <= LONGEST,
    ensures
        r == skim_score(choice@, pattern@),
        r is Some <==> threaded(choice@, pattern@, has_upper(pattern@)),
        r is Some ==> i32::MIN <= r->0 <= 32 * pattern@.len(),
{
    fuzzy_matcher::skim::SkimMatcherV2::default().fuzzy_match(choice, pattern)
}

/// How often a name was launched.
pub open spec fn launches_of_name(popularity: Map<Seq<char>, u32>, name: Seq<char>) -> int {
    if popularity.contains_key(name) {
        popularity[name] as int
    } else {
        0
    }
}

/// What launches add to a score. Beyond a hundred launches it grows no more,
/// so that a habit cannot hide new apps for good.
pub open spec fn bonus(popularity: Map<Seq<char>, u32>, weight: i64, name: Seq<char>) -> int {
    let count = launches_of_name(popularity, name);
    if count < MOST_COUNTED {
        count * weight
    } else {
        MOST_COUNTED * weight
    }
}

/// Whether a name begins with a query, whatever the case of letters.
pub open spec fn begins_query(name: Seq<char>, query: Seq<char>) -> bool {
    begins(lowercase(name), lowercase(query))
}

/// The most points that a fuzzy match earns: 32 for each character of the
/// query.
pub open spec fn most_earned(query_length: int) -> int {
    32 * query_length
}

/// The most by which launches can raise or lower a score.
pub open spec fn most_added(weight: i64) -> int {
    if weight < 0 {
        -(MOST_COUNTED * weight)
    } else {
        MOST_COUNTED * weight
    }
}

/// What all fuzzy matches are lowered by: nothing, as long as launches are
/// worth less than what sets names that begin with the query apart, and else
/// as much as it takes to keep them behind all such names.
pub open spec fn lowered_by(query_length: int, weight: i64) -> int {
    let reach = most_earned(query_length) + most_added(weight);
    if reach < PREFIX_SCORE {
        0
    } else {
        reach - PREFIX_SCORE + 1
    }
}

/// The score of a fuzzy match with its bonus.
pub open spec fn fuzzy_score(earned: int, extra: int, query_length: int, weight: i64) -> int {
    let points = if earned < most_earned(query_length) {
        earned
    } else {
        most_earned(query_length)
    };
    points + extra - lowered_by(query_length, weight)
}

/// The score of a name for a query. Every name matches the empty query. Names
/// that begin with the query have a high score, and others that match have
/// that of the match, below all names that begin with the query; the case of
/// letters does not count.
pub open spec fn score(
    popularity: Map<Seq<char>, u32>,
    weight: i64,
    name: Seq<char>,
    query: Seq<char>,
) -> Option<int> {
    if query.len() == 0 {
        Some(0)
    } else if begins_query(name, query) {
        Some(PREFIX_SCORE + bonus(popularity, weight, name))
    } else {
        match skim_score(lowercase(name), lowercase(query)) {
            Some(s) => Some(
                fuzzy_score(
                    s as int,
                    bonus(popularity, weight, name),
                    lowercase(query).len() as int,
                    weight,
                ),
            ),
            None => None,
        }
    }
}

/// Whether a number has a place in the program's scores.
pub open spec fn is_score(n: int) -> bool {
    i64::MIN <= n <= i64::MAX
}

/// Whether the score of a name for a query can be computed: the lower-case
/// texts are not too long for the matcher, and neither the bonus nor the score
/// is too large.
pub open spec fn can_score(
    popularity: Map<Seq<char>, u32>,
    weight: i64,
    name: Seq<char>,
    query: Seq<char>,
) -> bool {
    query.len() > 0 ==> {
        &&& lowercase(name).len() <= LONGEST
        &&& lowercase(query).len() <= LONGEST
        &&& is_score(bonus(popularity, weight, name))
        &&& score(popularity, weight, name, query) is Some ==> is_score(
            score(popularity, weight, name, query)->0,
        )
    }
}

/// How often a name was launched.
fn count_of(popularity: &TextMap<u32>, name: &str) -> (r: u32)
    ensures
        r == launches_of_name(popularity@, name@),
{
    match popularity.get(name) {
        Some(n) => *n,
        None => 0,
    }
}

/// What launches add to a score.
fn wide_bonus(popularity: &TextMap<u32>, weight: i64, name: &str) -> (r: i128)
    ensures
        r == bonus(popularity@, weight, name@),
        100 * i64::MIN <= r <= 100 * i64::MAX,
{
    let count = count_of(popularity, name) as i128;
    let counted = if count < MOST_COUNTED as i128 {
        count
    } else {
        MOST_COUNTED as i128
    };
    assert(100 * i64::MIN <= counted * weight <= 100 * i64::MAX) by (nonlinear_arith)
        requires
            0 <= counted <= 100,
            i64::MIN <= weight <= i64::MAX,
    ;
    counted * (weight as i128)
}

/// What launches add to a score.
pub fn popularity_bonus(popularity: &TextMap<u32>, weight: i64, name: &str) -> (r: i64)
    requires
        is_score(bonus(popularity@, weight, name@)),
    ensures
        r == bonus(popularity@, weight, name@),
{
    wide_bonus(popularity, weight, name) as i64
}

/// Whether a number has a place in the program's scores.
fn fits_score(n: i128) -> (r: bool)
    ensures
        r == is_score(n as int),
{
    i64::MIN as i128 <= n && n <= i64::MAX as i128
}

/// The score of a fuzzy match with its bonus.
fn wide_fuzzy_score(earned: i64, extra: i128, query_length: usize, weight: i64) -> (r: i128)
    requires
        query_length <= LONGEST,
        100 * i64::MIN <= extra <= 100 * i64::MAX,
    ensures
        r == fuzzy_score(earned as int, extra as int, query_length as int, weight),
{
    let most = 32 * (query_length as i128);
    let points = if (earned as i128) < most {
        earned as i128
    } else {
        most
    };
    let added = if weight < 0 {
        -(100 * (weight as i128))
    } else {
        100 * (weight as i128)
    };
    let reach = most + added;
    let lowered = if reach < PREFIX_SCORE as i128 {
        0
    } else {
        reach - PREFIX_SCORE as i128 + 1
    };
    points + extra - lowered
}

/// Whether the score of a name for a query can be computed.
pub fn is_scorable(popularity: &TextMap<u32>, weight: i64, name: &str, query: &str) -> (r: bool)
    ensures
        r == can_score(popularity@, weight, name@, query@),
{
    if query.is_empty() {
        return true;
    }
    let lower_name = to_lowercase(name);
    let lower_query = to_lowercase(query);
    let name_length = chars_of(lower_name.as_str()).len();
    let query_length = chars_of(lower_query.as_str()).len();
    if name_length > LONGEST || query_length > LONGEST {
        return false;
    }
    let extra = wide_bonus(popularity, weight, name);
    if !fits_score(extra) {
        return false;
    }
    if starts_with(lower_name.as_str(), lower_query.as_str()) {
        return fits_score(PREFIX_SCORE as i128 + extra);
    }
    match fuzzy_match(lower_name.as_str(), lower_query.as_str()) {
        Some(s) => fits_score(wide_fuzzy_score(s, extra, query_length, weight)),
        None => true,
    }
}

/// What follows a fuzzy match: its score, if there is one, with the bonus.
pub fn with_bonus(
    matched: Option<i64>,
    extra: i64,
    query_length: usize,
    weight: i64,
) -> (r: Option<i64>)
    requires
        query_length <= LONGEST,
        matched is Some ==> is_score(
            fuzzy_score(matched->0 as int, extra as int, query_length as int, weight),
        ),
    ensures
        match (matched, r) {
            (Some(s), Some(t)) => t == fuzzy_score(
                s as int,
                extra as int,
                query_length as int,
                weight,
            ),
            (None, None) => true,
            _ => false,
        },
{
    match matched {
        Some(s) => Some(wide_fuzzy_score(s, extra as i128, query_length, weight) as i64),
        None => None,
    }
}

/// What a score is as a number.
pub open spec fn score_in(r: Option<i64>) -> Option<int> {
    match r {
        Some(s) => Some(s as int),
        None => None,
    }
}

/// The score of a name for a query. A name matches if and only if it begins
/// with the query or holds the characters of the query in their order. A name
/// that does not begin with the query has the points of the fuzzy match and
/// its bonus, as long as launches are worth less than what sets names that
/// begin with the query apart.
pub fn match_score(popularity: &TextMap<u32>, weight: i64, name: &str, query: &str) -> (r: Option<
    i64,
>)
    requires
        can_score(popularity@, weight, name@, query@),
    ensures
        score_in(r) == score(popularity@, weight, name@, query@),
        r is Some <==> query@.len() == 0 || begins_query(name@, query@) || threaded(
            lowercase(name@),
            lowercase(query@),
            has_upper(lowercase(query@)),
        ),
        r is Some && query@.len() > 0 && !begins_query(name@, query@) && most_earned(
            lowercase(query@).len() as int,
        ) + most_added(weight) < PREFIX_SCORE ==> r->0 == skim_score(
            lowercase(name@),
            lowercase(query@),
        )->0 + bonus(popularity@, weight, name@),
        r is Some && r->0 >= PREFIX_SCORE ==> lowercase(query@).len() <= lowercase(name@).len()
            && forall|i: int|
            0 <= i < lowercase(query@).len() ==> lowercase(name@)[i] == #[trigger] lowercase(
                query@,
            )[i],
{
    proof {
        if query@.len() > 0 {
            only_names_that_begin_with_the_query_are_set_apart(
                popularity@,
                weight,
                name@,
                query@,
            );
        }
    }
    if query.is_empty() {
        return Some(0);
    }
    let lower_name = to_lowercase(name);
    let lower_query = to_lowercase(query);
    let extra = popularity_bonus(popularity, weight, name);
    if starts_with(lower_name.as_str(), lower_query.as_str()) {
        return Some(PREFIX_SCORE + extra);
    }
    let matched = fuzzy_match(lower_name.as_str(), lower_query.as_str());
    let query_length = chars_of(lower_query.as_str()).len();
    with_bonus(matched, extra, query_length, weight)
}

/// Of two names that begin with the query, the one with the greater bonus has
/// the higher score, and equal bonuses give equal scores.
pub proof fn popularity_orders_prefix_matches(
    popularity: Map<Seq<char>, u32>,
    weight: i64,
    a: Seq<char>,
    b: Seq<char>,
    query: Seq<char>,
)
    requires
        query.len() > 0,
        begins_query(a, query),
        begins_query(b, query),
    ensures
        score(popularity, weight, a, query)->0 - score(popularity, weight, b, query)->0 == bonus(
            popularity,
            weight,
            a,
        ) - bonus(popularity, weight, b),
{
}

/// Of two names that match equally well, the one with the greater bonus has
/// the higher score.
pub proof fn popularity_breaks_ties(
    popularity: Map<Seq<char>, u32>,
    weight: i64,
    a: Seq<char>,
    b: Seq<char>,
    query: Seq<char>,
)
    requires
        query.len() > 0,
        !begins_query(a, query),
        !begins_query(b, query),
        skim_score(lowercase(a), lowercase(query)) is Some,
        skim_score(lowercase(a), lowercase(query)) == skim_score(lowercase(b), lowercase(query)),
    ensures
        score(popularity, weight, a, query)->0 - score(popularity, weight, b, query)->0 == bonus(
            popularity,
            weight,
            a,
        ) - bonus(popularity, weight, b),
{
}

/// With a weight that is not negative, more launches give no smaller a bonus,
/// and the bonus stays between nothing and a hundred times the weight.
pub proof fn bonus_grows_with_launches(
    popularity: Map<Seq<char>, u32>,
    weight: i64,
    a: Seq<char>,
    b: Seq<char>,
)
    requires
        weight >= 0,
        launches_of_name(popularity, a) <= launches_of_name(popularity, b),
    ensures
        0 <= bonus(popularity, weight, a) <= bonus(popularity, weight, b) <= MOST_COUNTED * weight,
{
    let x = launches_of_name(popularity, a);
    let y = launches_of_name(popularity, b);
    assert(0 <= x);
    assert(x * weight <= y * weight) by (nonlinear_arith)
        requires
            0 <= x <= y,
            weight >= 0,
    ;
    assert(0 <= x * weight) by (nonlinear_arith)
        requires
            0 <= x,
            weight >= 0,
    ;
    assert(x < MOST_COUNTED ==> x * weight <= MOST_COUNTED * weight) by (nonlinear_arith)
        requires
            0 <= x,
            weight >= 0,
    ;
    assert(y < MOST_COUNTED ==> y * weight <= MOST_COUNTED * weight) by (nonlinear_arith)
        requires
            0 <= y,
            weight >= 0,
    ;
}

/// Launches raise or lower a score by no more than a hundred times the weight,
/// and to the same side.
proof fn lemma_bonus_bounds(popularity: Map<Seq<char>, u32>, weight: i64, name: Seq<char>)
    ensures
        weight >= 0 ==> 0 <= bonus(popularity, weight, name) <= most_added(weight),
        weight < 0 ==> -most_added(weight) <= bonus(popularity, weight, name) <= 0,
{
    let count = launches_of_name(popularity, name);
    let counted = if count < MOST_COUNTED {
        count
    } else {
        MOST_COUNTED as int
    };
    assert(weight >= 0 ==> 0 <= counted * weight <= 100 * weight) by (nonlinear_arith)
        requires
            0 <= counted <= 100,
    ;
    assert(weight < 0 ==> 100 * weight <= counted * weight <= 0) by (nonlinear_arith)
        requires
            0 <= counted <= 100,
    ;
}

/// A name that begins with the query always has a higher score than one that
/// does not, however often each was launched and whatever a launch is worth.
pub proof fn prefix_matches_rank_above_others(
    popularity: Map<Seq<char>, u32>,
    weight: i64,
    p: Seq<char>,
    f: Seq<char>,
    query: Seq<char>,
)
    requires
        query.len() > 0,
        begins_query(p, query),
        !begins_query(f, query),
    ensures
        score(popularity, weight, p, query) is Some,
        score(popularity, weight, f, query) is Some ==> score(popularity, weight, p, query)->0
            > score(popularity, weight, f, query)->0,
{
    lemma_bonus_bounds(popularity, weight, p);
    lemma_bonus_bounds(popularity, weight, f);
}

/// With a weight above 0, of two names in the same tier that match equally
/// well, the one that was launched more often has the higher score, as far as
/// launches are counted.
pub proof fn frequent_names_win_ties(
    popularity: Map<Seq<char>, u32>,
    weight: i64,
    a: Seq<char>,
    b: Seq<char>,
    query: Seq<char>,
)
    requires
        query.len() > 0,
        weight > 0,
        begins_query(a, query) == begins_query(b, query),
        !begins_query(a, query) ==> skim_score(lowercase(a), lowercase(query)) is Some
            && skim_score(lowercase(a), lowercase(query)) == skim_score(
            lowercase(b),
            lowercase(query),
        ),
        launches_of_name(popularity, b) < launches_of_name(popularity, a),
        launches_of_name(popularity, b) < MOST_COUNTED,
    ensures
        score(popularity, weight, a, query)->0 > score(popularity, weight, b, query)->0,
{
    let x = launches_of_name(popularity, a);
    let y = launches_of_name(popularity, b);
    let counted = if x < MOST_COUNTED {
        x
    } else {
        MOST_COUNTED as int
    };
    assert(y * weight < counted * weight) by (nonlinear_arith)
        requires
            y < counted,
            weight > 0,
    ;
}

/// A name has at least the score that sets names apart which begin with the
/// query only if its first characters in lower case are those of the query, and
/// then it has that score and its bonus: its launches, of which at most a
/// hundred count, times the weight.
pub proof fn only_names_that_begin_with_the_query_are_set_apart(
    popularity: Map<Seq<char>, u32>,
    weight: i64,
    name: Seq<char>,
    query: Seq<char>,
)
    requires
        query.len() > 0,
    ensures
        ({
            let n = lowercase(name);
            let q = lowercase(query);
            let result = score(popularity, weight, name, query);
            let launches = if popularity.contains_key(name) {
                popularity[name] as int
            } else {
                0
            };
            let counted = if launches < 100 {
                launches
            } else {
                100
            };
            &&& result is Some && result->0 >= 1_000_000 ==> q.len() <= n.len() && forall|i: int|
                0 <= i < q.len() ==> n[i] == #[trigger] q[i]
            &&& q.len() <= n.len() && (forall|i: int|
                0 <= i < q.len() ==> n[i] == #[trigger] q[i]) ==> result == Some(
                1_000_000 + counted * weight,
            )
        }),
{
    a_beginning_is_found_by_its_characters(lowercase(name), lowercase(query));
    lemma_bonus_bounds(popularity, weight, name);
}

/// A name whose first characters in lower case are not those of the query
/// matches if and only if the fuzzy matcher says so, with a score below that of
/// names that begin with the query. As long as launches are worth less than
/// what sets those apart, it is what the fuzzy matcher gives and the bonus.
pub proof fn other_names_have_the_score_of_the_matcher(
    popularity: Map<Seq<char>, u32>,
    weight: i64,
    name: Seq<char>,
    query: Seq<char>,
    differs_at: int,
)
    requires
        query.len() > 0,
        0 <= differs_at < lowercase(query).len(),
        differs_at >= lowercase(name).len() || lowercase(name)[differs_at] != lowercase(
            query,
        )[differs_at],
    ensures
        ({
            let matched = skim_score(lowercase(name), lowercase(query));
            let result = score(popularity, weight, name, query);
            let launches = if popularity.contains_key(name) {
                popularity[name] as int
            } else {
                0
            };
            let counted = if launches < 100 {
                launches
            } else {
                100
            };
            let reach = 32 * lowercase(query).len() + 100 * if weight < 0 {
                -weight
            } else {
                weight as int
            };
            &&& result is Some <==> matched is Some
            &&& result is Some ==> result->0 < 1_000_000
            &&& matched is Some && matched->0 <= 32 * lowercase(query).len() && reach < 1_000_000
                ==> result == Some(matched->0 + counted * weight)
        }),
{
    a_beginning_is_found_by_its_characters(lowercase(name), lowercase(query));
    lemma_bonus_bounds(popularity, weight, name);
}

/// Launches of a name raise its score by the weight each, up to a hundred of
/// them, and leave the scores of all other names.
pub proof fn launches_raise_the_score_of_their_name(
    popularity: Map<Seq<char>, u32>,
    weight: i64,
    name: Seq<char>,
    other: Seq<char>,
    query: Seq<char>,
    fewer: u32,
    more: u32,
)
    requires
        query.len() > 0,
        fewer <= more <= 100,
        name != other,
    ensures
        ({
            let low = score(popularity.insert(name, fewer), weight, name, query);
            let high = score(popularity.insert(name, more), weight, name, query);
            &&& low is Some <==> high is Some
            &&& low is Some ==> high->0 - low->0 == (more - fewer) * weight
        }),
        score(popularity.insert(name, more), weight, other, query) == score(
            popularity,
            weight,
            other,
            query,
        ),
{
    assert(more * weight - fewer * weight == (more - fewer) * weight) by (nonlinear_arith);
}

/// The case of letters does not count in a search, and every name matches the
/// empty query.
pub proof fn case_does_not_count(
    popularity: Map<Seq<char>, u32>,
    weight: i64,
    name: Seq<char>,
    query: Seq<char>,
    other: Seq<char>,
)
    requires
        query.len() > 0,
        other.len() > 0,
        lowercase(query) == lowercase(other),
    ensures
        score(popularity, weight, name, query) == score(popularity, weight, name, other),
        score(popularity, weight, name, Seq::empty()) == Some(0int),
{
}

/// A score can be computed for every name and query whose lower-case texts are
/// not too long for the matcher, as long as a launch is worth no more than some
/// 36 million billion points.
pub proof fn ordinary_scores_can_be_computed(
    popularity: Map<Seq<char>, u32>,
    weight: i64,
    name: Seq<char>,
    query: Seq<char>,
)
    requires
        lowercase(name).len() <= 0x200_0000,
        lowercase(query).len() <= 0x200_0000,
        -0x80_0000_0000_0000 <= weight <= 0x80_0000_0000_0000,
        skim_score(lowercase(name), lowercase(query)) matches Some(s) ==> i32::MIN <= s,
    ensures
        can_score(popularity, weight, name, query),
{
    lemma_bonus_bounds(popularity, weight, name);
    assert(most_added(weight) <= 100 * 0x80_0000_0000_0000);
}

} // verus!
