//! The heat-map scorer for interactive fuzzy filtering: every
//! character position of a candidate string gets a score that rewards
//! word starts and the last path group and penalizes long words and
//! leading dots. The computation walks the string once; separator
//! characters close the current group, whose score is then spread over
//! the group's positions, and a base-path bonus is moved from the
//! previous group to the latest one that holds words.
//!
//! The whole computation is mirrored by the specification state
//! machine below (`spec_heat_map`), and `heat_map` is proved to fill
//! the heat map with exactly those values.

use vstd::prelude::*;

verus! {

/// The score added to the last character of the string.
pub const LAST_CHAR_BONUS: i16 = 1;

/// The score every position starts from.
pub const INIT_SCORE: i16 = -35;

/// The penalty of a position that follows a dot.
pub const LEADING_PENALTY: i16 = -45;

/// The score of a position that starts a word.
pub const WORD_START: i16 = 85;

/// The longest string the scorer accepts: every intermediate score of
/// a string this long is proved to fit the 16-bit heat type.
pub const MAX_HEAT_LEN: usize = 2000;

/// Whether `c` separates words.
pub open spec fn spec_is_word_separator(c: char) -> bool {
    c == ' ' || c == '*' || c == '+' || c == '-' || c == '_' || c == ':' || c == ';'
        || c == '.' || c == '/' || c == '\\'
}

/// Decides whether `c` separates words.
pub fn is_word_separator(c: char) -> (r: bool)
    ensures
        r == spec_is_word_separator(c),
{
    match c {
        ' ' | '*' | '+' | '-' | '_' | ':' | ';' | '.' | '/' | '\\' => true,
        _ => false,
    }
}

/// Whether `c` is part of a word.
pub open spec fn spec_is_word(c: char) -> bool {
    !spec_is_word_separator(c)
}

/// Decides whether `c` is part of a word.
pub fn is_word(c: char) -> (r: bool)
    ensures
        r == spec_is_word(c),
{
    !is_word_separator(c)
}

/// What `char::is_uppercase` of std returns for `c`: a property of
/// the character alone.
pub uninterp spec fn char_uppercase(c: char) -> bool;

/// Relies on `char::is_uppercase` of std: whether the character is
/// uppercase by the Unicode derived property, a deterministic
/// function of the character.
pub assume_specification[ char::is_uppercase ](c: char) -> (r: bool)
    ensures
        r == char_uppercase(c),
;

/// Whether `c` is an uppercase word character.
pub open spec fn spec_is_capital(c: char) -> bool {
    spec_is_word(c) && char_uppercase(c)
}

/// Decides whether `c` is an uppercase word character.
pub fn is_capital(c: char) -> (r: bool)
    ensures
        r == spec_is_capital(c),
{
    is_word(c) && c.is_uppercase()
}

/// Whether `c` draws a penalty onto the position that follows it.
pub open spec fn spec_penalizes_if_leading(c: char) -> bool {
    c == '.'
}

/// Decides whether `c` draws a penalty onto the position after it.
pub fn penalizes_if_leading(c: char) -> (r: bool)
    ensures
        r == spec_penalizes_if_leading(c),
{
    c == '.'
}

/// Whether a character sequence is sorted.
pub open spec fn spec_sorted_chars(xs: Seq<char>) -> bool {
    forall|i: int, j: int| 0 <= i < j < xs.len() ==> xs[i] <= xs[j]
}

/// Decides by binary search whether `c` is one of the sorted
/// characters `xs`.
pub fn is_member(c: char, xs: &[char]) -> (r: bool)
    requires
        spec_sorted_chars(xs@),
    ensures
        r == xs@.contains(c),
{
    let mut lo: usize = 0;
    let mut hi: usize = xs.len();
    while lo < hi
        invariant
            0 <= lo <= hi <= xs@.len(),
            spec_sorted_chars(xs@),
            forall|k: int| 0 <= k < lo ==> xs@[k] != c,
            forall|k: int| hi <= k < xs@.len() ==> xs@[k] != c,
        decreases hi - lo,
    {
        let mid = lo + (hi - lo) / 2;
        let x = xs[mid];
        if x == c {
            return true;
        }
        if x < c {
            proof {
                assert(forall|k: int| 0 <= k <= mid ==> xs@[k] <= xs@[mid as int]);
            }
            lo = mid + 1;
        } else {
            proof {
                assert(forall|k: int| mid <= k < xs@.len() ==> xs@[mid as int] <= xs@[k]);
            }
            hi = mid;
        }
    }
    proof {
        assert(forall|k: int| 0 <= k < xs@.len() ==> xs@[k] != c);
    }
    false
}

/// The score of a whole group: a group that holds words is a base
/// path candidate and is scored by the group count and its word
/// count; one that does not is scored by its position alone.
pub open spec fn spec_calc_group_score(
    is_base_path: bool,
    groups_count: int,
    word_count: int,
    n: int,
) -> int {
    if is_base_path {
        35 + (if groups_count - 2 > 0 {
            groups_count - 2
        } else {
            0
        }) - word_count
    } else {
        if n == 0 {
            -3
        } else {
            -6 + n
        }
    }
}

/// Computes a group's score.
pub fn calc_group_score(is_base_path: bool, groups_count: i16, word_count: i16, n: i16) -> (r: i16)
    requires
        0 <= groups_count <= 2001,
        0 <= word_count <= 2000,
        0 <= n <= 2000,
    ensures
        r as int == spec_calc_group_score(is_base_path, groups_count as int, word_count as int, n as int),
{
    if is_base_path {
        let clamp = if groups_count - 2 > 0 {
            groups_count - 2
        } else {
            0
        };
        35 + clamp - word_count
    } else {
        if n == 0 {
            -3
        } else {
            -6 + n
        }
    }
}

/// How many characters of `s` are group separators.
pub open spec fn count_seps(s: Seq<char>, seps: Seq<char>) -> int
    decreases s.len(),
{
    if s.len() == 0 {
        0
    } else {
        count_seps(s.drop_last(), seps) + if seps.contains(s.last()) {
            1int
        } else {
            0int
        }
    }
}

/// The separator count of any prefix is at least zero and at most the
/// count of the whole string.
pub proof fn lemma_count_seps_prefix(s: Seq<char>, seps: Seq<char>, i: int)
    requires
        0 <= i <= s.len(),
    ensures
        0 <= count_seps(s.take(i), seps) <= count_seps(s, seps),
        count_seps(s, seps) <= s.len(),
    decreases s.len(),
{
    if s.len() == 0 {
        assert(s.take(i) =~= s);
    } else if i == s.len() {
        assert(s.take(i) =~= s);
        lemma_count_seps_prefix(s.drop_last(), seps, s.len() - 1);
        assert(s.drop_last().take(s.len() - 1) =~= s.drop_last());
    } else {
        assert(s.drop_last().take(i) =~= s.take(i));
        lemma_count_seps_prefix(s.drop_last(), seps, i);
    }
}

/// The whole state of the scorer between two positions.
pub struct HeatState {
    pub heat: Seq<int>,
    pub prev: char,
    pub word_idx: int,
    pub word_char_idx: int,
    pub word_count: int,
    pub group_idx: int,
    pub group_start: int,
    pub prev_is_base: bool,
    pub prev_start: int,
    pub prev_end: int,
    pub prev_score: int,
    pub prev_non_base: int,
}

/// Adds `delta` to every heat position from `lo` through `hi` that
/// lies inside the map; this is how a group's score is spread over
/// its positions and its trailing separator.
pub open spec fn add_range(heat: Seq<int>, lo: int, hi: int, delta: int) -> Seq<int> {
    Seq::new(
        heat.len(),
        |k: int|
            if lo <= k <= hi {
                heat[k] + delta
            } else {
                heat[k]
            },
    )
}

/// Closes the group that ends just before position `end`: updates the
/// trailing separator position, spreads the group's score over the
/// group, moves the base-path bonus off the previous base-path group
/// when a new one appears, and resets the per-group counters.
pub open spec fn close_group(st: HeatState, end: int, n: int, gc: int) -> HeatState {
    let h1 = if st.word_idx >= 0 && end < n {
        st.heat.update(end, st.heat[end] + (-3) * st.word_idx - st.word_char_idx)
    } else {
        st.heat
    };
    let base = st.word_count != 0;
    let score = spec_calc_group_score(base, gc, st.word_count, st.group_idx);
    let non_base = spec_calc_group_score(false, gc, st.word_count, st.group_idx);
    let h2 = add_range(h1, st.group_start, end, score);
    let h3 = if st.prev_is_base && base {
        add_range(h2, st.prev_start, st.prev_end, st.prev_non_base - st.prev_score)
    } else {
        h2
    };
    HeatState {
        heat: h3,
        prev: st.prev,
        word_idx: -1,
        word_char_idx: 0,
        word_count: 0,
        group_idx: st.group_idx + 1,
        group_start: end + 1,
        prev_is_base: if base {
            true
        } else {
            st.prev_is_base
        },
        prev_start: if base {
            st.group_start
        } else {
            st.prev_start
        },
        prev_end: if base {
            end
        } else {
            st.prev_end
        },
        prev_score: if base {
            score
        } else {
            st.prev_score
        },
        prev_non_base: if base {
            non_base
        } else {
            st.prev_non_base
        },
    }
}

/// Scores one ordinary character at position `i`: word starts and
/// capital letters open a word and earn the word-start score, every
/// position inside a word pays for its word's index and its own
/// offset, and a dot penalizes the position after it.
pub open spec fn regular_char(st: HeatState, c: char, i: int, n: int) -> HeatState {
    let wb = !spec_is_word(st.prev) && spec_is_word(c);
    let wc = st.word_count + if wb {
        1int
    } else {
        0int
    };
    let boundary = wb || (!char_uppercase(st.prev) && char_uppercase(c));
    let wi = if boundary {
        st.word_idx + 1
    } else {
        st.word_idx
    };
    let wci = if boundary {
        0
    } else {
        st.word_char_idx
    };
    let h1 = if boundary {
        st.heat.update(i, st.heat[i] + 85)
    } else {
        st.heat
    };
    let h2 = if wi >= 0 {
        h1.update(i, h1[i] + (-3) * wi - wci)
    } else {
        h1
    };
    let h3 = if spec_penalizes_if_leading(c) && i + 1 < n {
        h2.update(i + 1, h2[i + 1] + (-45))
    } else {
        h2
    };
    HeatState {
        heat: h3,
        prev: c,
        word_idx: wi,
        word_char_idx: wci + 1,
        word_count: wc,
        ..st
    }
}

/// One position of the scorer: a separator closes the current group,
/// any other character is scored in place.
pub open spec fn heat_step(st: HeatState, s: Seq<char>, seps: Seq<char>, i: int, gc: int) -> HeatState {
    let c = s[i];
    if seps.contains(c) {
        let st1 = close_group(st, i, s.len() as int, gc);
        HeatState { prev: c, ..st1 }
    } else {
        regular_char(st, c, i, s.len() as int)
    }
}

/// Runs the scorer from position `i` to the end of the string.
pub open spec fn scan_from(st: HeatState, s: Seq<char>, seps: Seq<char>, i: int, gc: int) -> HeatState
    decreases s.len() - i,
{
    if 0 <= i < s.len() {
        scan_from(heat_step(st, s, seps, i, gc), s, seps, i + 1, gc)
    } else {
        st
    }
}

/// The initial state: every position starts from the initial score
/// (lowered when the string has several groups), and the last
/// position gets a small bonus.
pub open spec fn initial_state(s: Seq<char>, gc: int) -> HeatState {
    let init = -35 + (if gc > 1 {
        -2 * gc
    } else {
        0
    });
    HeatState {
        heat: Seq::new(
            s.len(),
            |k: int|
                if k == s.len() - 1 {
                    init + 1
                } else {
                    init
                },
        ),
        prev: ' ',
        word_idx: -1,
        word_char_idx: 0,
        word_count: 0,
        group_idx: 0,
        group_start: 0,
        prev_is_base: false,
        prev_start: 0,
        prev_end: 0,
        prev_score: 0,
        prev_non_base: 0,
    }
}

/// The number of groups the string is scored with: one more than its
/// separator count, and one when no separators are configured.
pub open spec fn spec_groups_count(s: Seq<char>, seps: Seq<char>) -> int {
    if seps.len() == 0 {
        1
    } else {
        count_seps(s, seps) + 1
    }
}

/// The heat map of `s` under the group separators `seps`: empty for
/// the empty string; otherwise the scorer runs over every position
/// and the final group is closed at the end of the string.
pub open spec fn spec_heat_map(s: Seq<char>, seps: Seq<char>) -> Seq<int> {
    if s.len() == 0 {
        Seq::empty()
    } else {
        let gc = spec_groups_count(s, seps);
        let stn = scan_from(initial_state(s, gc), s, seps, 0, gc);
        close_group(stn, s.len() as int, s.len() as int, gc).heat
    }
}

/// Whether `x` lies within `b` of zero.
pub open spec fn abs_le(x: int, b: int) -> bool {
    -b <= x <= b
}

/// The numeric well-formedness of the scorer's state at position `i`
/// of a string of length `n`: the counters are bounded by the
/// position, and every heat value is bounded according to its region
/// — closed groups, the current group, the frontier position, and the
/// untouched tail. These bounds keep every intermediate value of a
/// string of admissible length inside the 16-bit heat type.
pub open spec fn heat_num_wf(st: HeatState, i: int, n: int) -> bool {
    &&& st.heat.len() == n
    &&& -1 <= st.word_idx <= i
    &&& 0 <= st.word_char_idx <= i
    &&& 0 <= st.word_count <= i
    &&& 0 <= st.group_idx <= i
    &&& 0 <= st.group_start <= i
    &&& (forall|k: int|
        0 <= k < st.group_start && k < n ==> abs_le(#[trigger] st.heat[k], 245 + 9 * n))
    &&& (forall|k: int|
        st.group_start <= k < i && k < n ==> abs_le(#[trigger] st.heat[k], 169 + 6 * n))
    &&& (i < n ==> abs_le(st.heat[i], 83 + 2 * n))
    &&& (forall|k: int| i < k < n ==> abs_le(#[trigger] st.heat[k], 38 + 2 * n))
    &&& (st.prev_is_base ==> {
        &&& 0 <= st.prev_start <= st.prev_end < st.group_start
        &&& (forall|k: int|
            st.prev_start <= k <= st.prev_end && k < n ==> abs_le(#[trigger] st.heat[k], 204 + 7 * n))
        &&& abs_le(st.prev_score, n + 35)
        &&& abs_le(st.prev_non_base, n + 6)
    })
}

/// The per-group counters and the base-path bookkeeping of the
/// scorer, as the executable code carries them.
struct GroupState {
    word_idx: i16,
    word_char_idx: i16,
    word_count: i16,
    group_idx: i16,
    group_start: usize,
    prev_is_base: bool,
    prev_start: usize,
    prev_end: usize,
    prev_score: i16,
    prev_non_base: i16,
}

impl GroupState {
    /// The executable counters agree with the specification state.
    spec fn matches(self, st: HeatState) -> bool {
        &&& st.word_idx == self.word_idx as int
        &&& st.word_char_idx == self.word_char_idx as int
        &&& st.word_count == self.word_count as int
        &&& st.group_idx == self.group_idx as int
        &&& st.group_start == self.group_start as int
        &&& st.prev_is_base == self.prev_is_base
        &&& st.prev_start == self.prev_start as int
        &&& st.prev_end == self.prev_end as int
        &&& st.prev_score == self.prev_score as int
        &&& st.prev_non_base == self.prev_non_base as int
    }
}

/// Updating one element commutes with taking integer views.
proof fn lemma_map_set(v: Seq<i16>, i: int, x: i16)
    requires
        0 <= i < v.len(),
    ensures
        v.update(i, x).map_values(|h: i16| h as int) =~= v.map_values(|h: i16| h as int).update(
            i,
            x as int,
        ),
{
}

/// Adds a group's score to the positions `start` through `end`,
/// clipped to the heat map (the position `end` is the group's
/// trailing separator, which shares its group's score; for the last
/// group it is one past the end of the map).
pub fn apply_group_score(score: i16, heatmap: &mut Vec<i16>, start: usize, end: usize)
    requires
        start <= end,
        start as int <= old(heatmap)@.len(),
        forall|k: int|
            start <= k <= end && k < old(heatmap)@.len() ==> -32768 <= (#[trigger] old(
                heatmap,
            )@[k]) + score <= 32767,
    ensures
        final(heatmap)@.map_values(|h: i16| h as int) == add_range(
            old(heatmap)@.map_values(|h: i16| h as int),
            start as int,
            end as int,
            score as int,
        ),
{
    let ghost base = old(heatmap)@.map_values(|h: i16| h as int);
    let n = heatmap.len();
    let stop = if end < n {
        end + 1
    } else {
        n
    };
    let mut k = start;
    while k < stop
        invariant
            start <= k <= stop,
            stop <= heatmap@.len(),
            stop == if (end as int) < base.len() {
                end + 1
            } else {
                base.len() as int
            },
            heatmap@.len() == base.len(),
            heatmap@.map_values(|h: i16| h as int) =~= add_range(
                base,
                start as int,
                k - 1,
                score as int,
            ),
            forall|k2: int|
                start <= k2 <= end && k2 < base.len() ==> -32768 <= (#[trigger] base[k2]) + score
                    <= 32767,
        decreases stop - k,
    {
        let old_h = heatmap[k];
        proof {
            assert(heatmap@.map_values(|h: i16| h as int)[k as int] == base[k as int]);
            assert(-32768 <= base[k as int] + score <= 32767);
        }
        let ghost before = heatmap@;
        heatmap.set(k, old_h + score);
        proof {
            lemma_map_set(before, k as int, (old_h + score) as i16);
            assert(heatmap@.map_values(|h: i16| h as int) =~= add_range(
                base,
                start as int,
                k as int,
                score as int,
            ));
        }
        k += 1;
    }
    proof {
        assert(heatmap@.map_values(|h: i16| h as int) =~= add_range(
            base,
            start as int,
            end as int,
            score as int,
        ));
    }
}

/// Closes the group ending just before position `end`: the executable
/// counterpart of `close_group`, proved to take the heat map and the
/// counters to exactly the state the specification prescribes, with
/// every intermediate value inside the heat type.
fn close_group_exec(
    heatmap: &mut Vec<i16>,
    gs: &mut GroupState,
    end: usize,
    n: usize,
    gc: i16,
    Ghost(st): Ghost<HeatState>,
)
    requires
        n == old(heatmap)@.len(),
        n <= 2000,
        end <= n,
        1 <= gc <= n + 1,
        old(gs).matches(st),
        st.heat == old(heatmap)@.map_values(|h: i16| h as int),
        heat_num_wf(st, end as int, n as int),
    ensures
        final(heatmap)@.map_values(|h: i16| h as int) == close_group(
            st,
            end as int,
            n as int,
            gc as int,
        ).heat,
        final(gs).matches(close_group(st, end as int, n as int, gc as int)),
        heat_num_wf(close_group(st, end as int, n as int, gc as int), end + 1, n as int),
{
    let ghost h0 = st.heat;
    let ghost ni = n as int;

    // Update the trailing separator position with the running word
    // scores of the group that just ended.
    if gs.word_idx >= 0 && end < n {
        let upd = -3 * gs.word_idx - gs.word_char_idx;
        let old_h = heatmap[end];
        proof {
            assert(abs_le(h0[end as int], 83 + 2 * ni));
            assert(abs_le(upd as int, 4 * ni));
        }
        let ghost before = heatmap@;
        heatmap.set(end, old_h + upd);
        proof {
            lemma_map_set(before, end as int, (old_h + upd) as i16);
        }
    }
    let ghost h1 = if st.word_idx >= 0 && (end as int) < ni {
        h0.update(end as int, h0[end as int] + (-3) * st.word_idx - st.word_char_idx)
    } else {
        h0
    };
    proof {
        assert(heatmap@.map_values(|h: i16| h as int) =~= h1);
        assert(forall|k: int| 0 <= k < ni && k != end ==> h1[k] == h0[k]);
        assert((end as int) < ni ==> abs_le(h1[end as int], 83 + 6 * ni));
    }

    let base_path = gs.word_count != 0;
    let score = calc_group_score(base_path, gc, gs.word_count, gs.group_idx);
    let non_base = calc_group_score(false, gc, gs.word_count, gs.group_idx);
    proof {
        assert(abs_le(score as int, ni + 35));
        assert(abs_le(non_base as int, ni + 6));
        assert(forall|k: int|
            gs.group_start <= k <= end && k < ni ==> -32768 <= (#[trigger] h1[k]) + score
                <= 32767);
        assert forall|k: int|
            gs.group_start <= k <= end && k < heatmap@.len() implies -32768 <= (
        #[trigger] heatmap@[k]) + score <= 32767 by {
            assert(heatmap@.map_values(|h: i16| h as int)[k] == heatmap@[k] as int);
            assert(h1[k] == heatmap@[k] as int);
        }
    }
    apply_group_score(score, heatmap, gs.group_start, end);
    let ghost h2 = add_range(h1, st.group_start, end as int, score as int);
    proof {
        assert(heatmap@.map_values(|h: i16| h as int) == h2);
        assert(forall|k: int|
            gs.group_start <= k <= end && k < ni ==> abs_le(#[trigger] h2[k], 204 + 7 * ni));
        assert(forall|k: int|
            0 <= k < ni && !(gs.group_start <= k <= end) ==> h2[k] == h1[k]);
    }

    // Move the base-path bonus off the previous base-path group when
    // this group is the new base-path candidate.
    if gs.prev_is_base && base_path {
        let delta = gs.prev_non_base - gs.prev_score;
        proof {
            assert(abs_le(delta as int, 2 * ni + 41));
            assert(forall|k: int|
                gs.prev_start <= k <= gs.prev_end && k < ni ==> #[trigger] h2[k] == h0[k]);
            assert(forall|k: int|
                gs.prev_start <= k <= gs.prev_end && k < ni ==> -32768 <= (#[trigger] h2[k])
                    + delta <= 32767);
            assert forall|k: int|
                gs.prev_start <= k <= gs.prev_end && k < heatmap@.len() implies -32768 <= (
            #[trigger] heatmap@[k]) + delta <= 32767 by {
                assert(heatmap@.map_values(|h: i16| h as int)[k] == heatmap@[k] as int);
                assert(h2[k] == heatmap@[k] as int);
            }
        }
        apply_group_score(delta, heatmap, gs.prev_start, gs.prev_end);
    }
    let ghost h3 = if st.prev_is_base && st.word_count != 0 {
        add_range(h2, st.prev_start, st.prev_end, st.prev_non_base - st.prev_score)
    } else {
        h2
    };
    proof {
        assert(heatmap@.map_values(|h: i16| h as int) =~= h3);
    }

    // Reset the per-group counters and remember this group as the
    // base-path candidate when it holds words.
    let old_group_start = gs.group_start;
    gs.word_idx = -1;
    gs.word_char_idx = 0;
    gs.word_count = 0;
    gs.group_idx = gs.group_idx + 1;
    gs.group_start = end + 1;
    if base_path {
        gs.prev_is_base = true;
        gs.prev_start = old_group_start;
        gs.prev_end = end;
        gs.prev_score = score;
        gs.prev_non_base = non_base;
    }
    proof {
        let st1 = close_group(st, end as int, ni, gc as int);
        assert(st1.heat == h3);
        assert(gs.matches(st1));
        assert(heatmap@.map_values(|h: i16| h as int) =~= st1.heat);
        assert forall|k: int| 0 <= k < st1.group_start && k < ni implies abs_le(
            #[trigger] st1.heat[k],
            245 + 9 * ni,
        ) by {
            if st.prev_is_base && st.word_count != 0 && st.prev_start <= k <= st.prev_end {
                assert(abs_le(h0[k], 204 + 7 * ni));
                assert(h2[k] == h0[k]);
            } else if st.group_start <= k <= end {
                assert(abs_le(h2[k], 204 + 7 * ni));
                assert(h3[k] == h2[k]);
            } else if k < st.group_start {
                assert(abs_le(h0[k], 245 + 9 * ni));
                assert(h2[k] == h0[k] && h3[k] == h2[k]);
            }
        }
        assert(heat_num_wf(st1, end + 1, ni));
    }
}

/// Fills `heatmap` with the heat of every character position of `s`,
/// scored under the sorted group separator characters `group_seps`,
/// exactly as `spec_heat_map` prescribes. The string's length is
/// bounded so that every intermediate score fits the heat type.
pub fn heat_map(s: &str, group_seps: &[char], heatmap: &mut Vec<i16>)
    requires
        spec_sorted_chars(group_seps@),
        s@.len() <= MAX_HEAT_LEN,
    ensures
        final(heatmap)@.map_values(|h: i16| h as int) == spec_heat_map(s@, group_seps@),
{
    let chars = crate::text::str_chars(s);
    let n = chars.len();
    heatmap.clear();
    if n == 0 {
        proof {
            assert(heatmap@.map_values(|h: i16| h as int) =~= spec_heat_map(s@, group_seps@));
        }
        return ;
    }

    // Count the separator occurrences to learn the group count.
    let mut sep_count: usize = 0;
    let mut t: usize = 0;
    while t < n
        invariant
            0 <= t <= n,
            n == s@.len(),
            chars@ == s@,
            spec_sorted_chars(group_seps@),
            sep_count as int == count_seps(s@.take(t as int), group_seps@),
            sep_count <= t,
        decreases n - t,
    {
        proof {
            assert(s@.take(t + 1 as int).drop_last() =~= s@.take(t as int));
            assert(s@.take(t + 1 as int).last() == s@[t as int]);
        }
        if is_member(chars[t], group_seps) {
            sep_count = sep_count + 1;
        }
        t += 1;
    }
    proof {
        assert(s@.take(n as int) =~= s@);
    }
    let gc_big: usize = if group_seps.len() == 0 {
        1
    } else {
        sep_count + 1
    };
    let gc: i16 = gc_big as i16;
    let ghost gci: int = gc as int;
    proof {
        assert(gc_big <= 2001);
        assert(gci == gc_big as int);
        assert(gci == spec_groups_count(s@, group_seps@));
        assert(1 <= gci <= n as int + 1);
    }

    // Fill the map with the initial score; the last position gets a
    // small bonus.
    let mut init: i16 = INIT_SCORE;
    if gc > 1 {
        init = init - 2 * gc;
    }
    let ghost st0 = initial_state(s@, gci);
    proof {
        assert(init as int == -35 + (if gci > 1 {
            -2 * gci
        } else {
            0int
        }));
    }
    let mut k: usize = 0;
    while k < n
        invariant
            0 <= k <= n,
            n == s@.len(),
            n <= 2000,
            st0 == initial_state(s@, gci),
            heatmap@.len() == k,
            heatmap@.map_values(|h: i16| h as int) =~= st0.heat.take(k as int),
            init as int == -35 + (if gci > 1 {
                -2 * gci
            } else {
                0int
            }),
            1 <= gci <= n as int + 1,
        decreases n - k,
    {
        let v: i16 = if k == n - 1 {
            init + LAST_CHAR_BONUS
        } else {
            init
        };
        proof {
            assert(st0.heat.take(k + 1 as int).drop_last() =~= st0.heat.take(k as int));
            assert(st0.heat.take(k + 1 as int).last() == st0.heat[k as int]);
            assert(st0.heat[k as int] == v as int);
        }
        heatmap.push(v);
        k += 1;
    }
    proof {
        assert(st0.heat.take(n as int) =~= st0.heat);
        assert(heatmap@.map_values(|h: i16| h as int) =~= st0.heat);
    }

    // Run the scorer over every position.
    let mut gs = GroupState {
        word_idx: -1,
        word_char_idx: 0,
        word_count: 0,
        group_idx: 0,
        group_start: 0,
        prev_is_base: false,
        prev_start: 0,
        prev_end: 0,
        prev_score: 0,
        prev_non_base: 0,
    };
    let mut prev: char = ' ';
    let ghost mut st = st0;
    proof {
        assert(gs.matches(st));
        assert forall|j: int| 0 <= j < n implies abs_le(#[trigger] st.heat[j], 38 + 2 * (
        n as int)) by {
            assert(st.heat[j] == (if j == n - 1 {
                init as int + 1
            } else {
                init as int
            }));
        }
        assert(heat_num_wf(st, 0, n as int));
    }
    let mut i: usize = 0;
    while i < n
        invariant
            0 <= i <= n,
            n == s@.len(),
            n <= 2000,
            chars@ == s@,
            spec_sorted_chars(group_seps@),
            1 <= gci <= n as int + 1,
            gc as int == gci,
            gci == spec_groups_count(s@, group_seps@),
            st0 == initial_state(s@, gci),
            gs.matches(st),
            st.prev == prev,
            heatmap@.len() == n,
            heatmap@.map_values(|h: i16| h as int) == st.heat,
            heat_num_wf(st, i as int, n as int),
            scan_from(st, s@, group_seps@, i as int, gci) == scan_from(st0, s@, group_seps@, 0, gci),
        decreases n - i,
    {
        let c = chars[i];
        proof {
            assert(s@[i as int] == c);
            assert(scan_from(st, s@, group_seps@, i as int, gci) == scan_from(
                heat_step(st, s@, group_seps@, i as int, gci),
                s@,
                group_seps@,
                i + 1,
                gci,
            ));
        }
        if is_member(c, group_seps) {
            let ghost st_before = st;
            close_group_exec(heatmap, &mut gs, i, n, gc, Ghost(st));
            prev = c;
            proof {
                let st1 = close_group(st_before, i as int, n as int, gci);
                st = HeatState { prev: c, ..st1 };
                assert(st == heat_step(st_before, s@, group_seps@, i as int, gci));
                assert(gs.matches(st));
                assert(heatmap@.map_values(|h: i16| h as int) == st.heat);
                assert(heat_num_wf(st, i + 1, n as int));
            }
        } else {
            let ghost st_before = st;
            let wb = !is_word(prev) && is_word(c);
            if wb {
                gs.word_count = gs.word_count + 1;
            }
            let boundary = wb || (!prev.is_uppercase() && c.is_uppercase());
            if boundary {
                gs.word_idx = gs.word_idx + 1;
                gs.word_char_idx = 0;
                let old_h = heatmap[i];
                proof {
                    assert(abs_le(st.heat[i as int], 83 + 2 * (n as int)));
                }
                let ghost before = heatmap@;
                heatmap.set(i, old_h + WORD_START);
                proof {
                    lemma_map_set(before, i as int, (old_h + WORD_START) as i16);
                }
            }
            if gs.word_idx >= 0 {
                let upd = -3 * gs.word_idx - gs.word_char_idx;
                let old_h = heatmap[i];
                proof {
                    assert(abs_le(old_h as int, 168 + 2 * (n as int)));
                    assert(abs_le(upd as int, 4 * (n as int) + 3));
                }
                let ghost before = heatmap@;
                heatmap.set(i, old_h + upd);
                proof {
                    lemma_map_set(before, i as int, (old_h + upd) as i16);
                }
            }
            gs.word_char_idx = gs.word_char_idx + 1;
            if penalizes_if_leading(c) && i + 1 < n {
                let old_h = heatmap[i + 1];
                proof {
                    assert(abs_le(old_h as int, 38 + 2 * (n as int)));
                }
                let ghost before = heatmap@;
                heatmap.set(i + 1, old_h + LEADING_PENALTY);
                proof {
                    lemma_map_set(before, i + 1 as int, (old_h + LEADING_PENALTY) as i16);
                }
            }
            prev = c;
            proof {
                st = regular_char(st_before, c, i as int, n as int);
                assert(st == heat_step(st_before, s@, group_seps@, i as int, gci));
                assert(gs.matches(st));
                assert(heatmap@.map_values(|h: i16| h as int) =~= st.heat);
                assert(heat_num_wf(st, i + 1, n as int));
            }
        }
        i += 1;
    }
    proof {
        assert(scan_from(st, s@, group_seps@, n as int, gci) == st);
        assert(st == scan_from(st0, s@, group_seps@, 0, gci));
    }
    close_group_exec(heatmap, &mut gs, n, n, gc, Ghost(st));
    proof {
        assert(heatmap@.map_values(|h: i16| h as int) == close_group(
            st,
            n as int,
            n as int,
            gci,
        ).heat);
        assert(close_group(st, n as int, n as int, gci).heat == spec_heat_map(s@, group_seps@));
    }
}

} // verus!
