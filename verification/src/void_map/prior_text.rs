//! The text form of known planes: a line of ten numbers for each.
//!
//! A line holds the center, the normal, the offset, the scale of the covariance,
//! the extent and the number of points, set apart by white space. Lines without
//! anything else than white space are skipped, and so are lines whose first
//! character is `#`.

use vstd::prelude::*;

use crate::algebra::{three_by_three, unit};
use crate::arith::{apply_two, binary, of_two};
use crate::double::Double;
use crate::void_map::plane::{Six, VoxelPlane};
use crate::void_map::prior_map::{extents, large_planes, touching, PriorPlaneMap};
use crate::void_map::voxel::VoxelKey;

verus! {

/// The least eigenvalue of a plane that was read: 1e-4.
pub const READ_EIGEN_MIN: u64 = 0x3F1A_36E2_EB1C_432D;

/// The length below which a normal is none: 1e-9.
pub const MIN_NORMAL: u64 = 0x3E11_2E0B_E826_D695;

/// How many numbers a line holds.
pub const LINE_NUMBERS: usize = 10;

/// Why a text is not a list of planes; with the line's number, from one on.
#[derive(Clone, Copy, Debug, PartialEq, Eq, Structural)]
pub enum PriorError {
    /// A word is no number.
    BadNumber(usize),
    /// The line does not hold ten numbers.
    BadCount(usize),
    /// The scale or the extent is not positive, or the normal is zero.
    BadValue(usize),
}

/// A line with its words.
#[derive(Debug)]
pub struct TextLine {
    /// The line's number, from one on.
    pub number: usize,
    /// The words.
    pub words: Vec<Vec<char>>,
}

/// What a line holds.
pub struct LineView {
    /// The line's number.
    pub number: int,
    /// The words.
    pub words: Seq<Seq<char>>,
}

/// Whether a character is white space.
pub open spec fn is_space(c: char) -> bool {
    let k = c as u32;
    ||| 0x09 <= k <= 0x0D
    ||| k == 0x20
    ||| k == 0x85
    ||| k == 0xA0
    ||| k == 0x1680
    ||| 0x2000 <= k <= 0x200A
    ||| k == 0x2028
    ||| k == 0x2029
    ||| k == 0x202F
    ||| k == 0x205F
    ||| k == 0x3000
}

/// The words of a text: its longest stretches without white space.
pub open spec fn words_of(s: Seq<char>) -> Seq<Seq<char>>
    decreases s.len(),
{
    if s.len() == 0 {
        seq![]
    } else {
        let rest = words_of(s.drop_last());
        if is_space(s.last()) {
            rest
        } else if ends_in_word(s.drop_last()) {
            rest.drop_last().push(rest.last().push(s.last()))
        } else {
            rest.push(seq![s.last()])
        }
    }
}

/// Whether a text ends inside a word.
pub open spec fn ends_in_word(s: Seq<char>) -> bool {
    s.len() > 0 && !is_space(s.last())
}

/// The lines of a text, the last of which may be empty.
pub open spec fn lines_of(s: Seq<char>) -> Seq<Seq<char>>
    decreases s.len(),
{
    if s.len() == 0 {
        seq![seq![]]
    } else {
        let rest = lines_of(s.drop_last());
        if s.last() == '\n' {
            rest.push(seq![])
        } else {
            rest.drop_last().push(rest.last().push(s.last()))
        }
    }
}

/// Whether a line holds a plane: it has words, and is no comment.
pub open spec fn has_plane(words: Seq<Seq<char>>) -> bool {
    words.len() > 0 && words[0].len() > 0 && words[0][0] != '#'
}

/// Those of the first `n` lines that hold planes.
pub open spec fn plane_lines(lines: Seq<Seq<char>>, n: int) -> Seq<LineView>
    decreases n,
{
    if n <= 0 {
        seq![]
    } else {
        let rest = plane_lines(lines, n - 1);
        let words = words_of(lines[n - 1]);
        if has_plane(words) {
            rest.push(LineView { number: n, words })
        } else {
            rest
        }
    }
}

/// What words hold.
pub open spec fn word_views(words: Seq<Vec<char>>) -> Seq<Seq<char>> {
    Seq::new(words.len(), |i: int| words[i]@)
}

/// What lines hold.
pub open spec fn line_views(lines: Seq<TextLine>) -> Seq<LineView> {
    Seq::new(
        lines.len(),
        |i: int| LineView { number: lines[i].number as int, words: word_views(lines[i].words@) },
    )
}

/// Whether a character is white space.
fn white(c: char) -> (yes: bool)
    ensures
        yes == is_space(c),
{
    let k: u32 = c as u32;
    (k >= 0x09 && k <= 0x0D) || k == 0x20 || k == 0x85 || k == 0xA0 || k == 0x1680 || (k >= 0x2000
        && k <= 0x200A) || k == 0x2028 || k == 0x2029 || k == 0x202F || k == 0x205F || k == 0x3000
}

/// A text that ends in a word has words, and none of them is empty.
proof fn lemma_words(s: Seq<char>)
    ensures
        ends_in_word(s) ==> words_of(s).len() > 0,
        forall|i: int| 0 <= i < words_of(s).len() ==> (#[trigger] words_of(s)[i]).len() > 0,
    decreases s.len(),
{
    if s.len() > 0 {
        let head = s.drop_last();
        lemma_words(head);
        let rest = words_of(head);
        let all = words_of(s);
        assert forall|i: int| 0 <= i < all.len() implies (#[trigger] all[i]).len() > 0 by {
            if i < rest.len() {
                assert(rest[i].len() > 0);
            }
        }
    }
}

/// A text has lines.
proof fn lemma_lines(s: Seq<char>)
    ensures
        0 < lines_of(s).len() <= s.len() + 1,
    decreases s.len(),
{
    if s.len() > 0 {
        lemma_lines(s.drop_last());
    }
}

/// Which lines hold planes depends on those lines alone.
proof fn lemma_plane_lines_same(a: Seq<Seq<char>>, b: Seq<Seq<char>>, n: int)
    requires
        0 <= n <= a.len(),
        n <= b.len(),
        forall|i: int| 0 <= i < n ==> #[trigger] a[i] == b[i],
    ensures
        plane_lines(a, n) == plane_lines(b, n),
    decreases n,
{
    if n > 0 {
        lemma_plane_lines_same(a, b, n - 1);
    }
}

/// Takes in a line, if it holds a plane.
fn finish_line(lines: &mut Vec<TextLine>, words: Vec<Vec<char>>, number: usize)
    ensures
        line_views(final(lines)@) == (if has_plane(word_views(words@)) {
            line_views(old(lines)@).push(
                LineView { number: number as int, words: word_views(words@) },
            )
        } else {
            line_views(old(lines)@)
        }),
{
    if words.len() > 0 && words[0].len() > 0 && words[0][0] != '#' {
        assert(has_plane(word_views(words@)));
        lines.push(TextLine { number, words });
        assert(line_views(lines@) =~= line_views(old(lines)@).push(
            LineView { number: number as int, words: word_views(words@) },
        ));
    } else {
        assert(!has_plane(word_views(words@)));
    }
}

/// The lines of a text that hold planes, with their words.
pub fn split_text(raw: &Vec<char>) -> (lines: Vec<TextLine>)
    requires
        raw@.len() < usize::MAX,
    ensures
        line_views(lines@) == plane_lines(lines_of(raw@), lines_of(raw@).len() as int),
{
    let mut lines: Vec<TextLine> = Vec::new();
    let mut words: Vec<Vec<char>> = Vec::new();
    let mut number: usize = 1;
    let mut inside = false;
    let mut i: usize = 0;
    proof {
        assert(raw@.take(0) =~= seq![]);
        assert(line_views(lines@) =~= seq![]);
        assert(word_views(words@) =~= words_of(seq![]));
    }
    while i < raw.len()
        invariant
            i <= raw@.len(),
            raw@.len() < usize::MAX,
            number == lines_of(raw@.take(i as int)).len(),
            number <= i + 1,
            word_views(words@) == words_of(lines_of(raw@.take(i as int)).last()),
            inside == ends_in_word(lines_of(raw@.take(i as int)).last()),
            line_views(lines@) == plane_lines(lines_of(raw@.take(i as int)), number - 1),
        decreases raw@.len() - i,
    {
        let c: char = raw[i];
        let ghost done = raw@.take(i as int);
        let ghost next = raw@.take(i + 1);
        let ghost line = lines_of(done).last();
        proof {
            assert(next.drop_last() =~= done);
            lemma_lines(done);
            lemma_words(line);
        }
        if c == '\n' {
            finish_line(&mut lines, words, number);
            words = Vec::new();
            inside = false;
            proof {
                assert(word_views(words@) =~= words_of(seq![]));
                lemma_plane_lines_same(lines_of(done), lines_of(next), number as int);
            }
            number += 1;
        } else {
            let ghost grown = line.push(c);
            proof {
                assert(grown.drop_last() =~= line);
                lemma_plane_lines_same(lines_of(done), lines_of(next), number - 1);
            }
            if white(c) {
                inside = false;
            } else if inside {
                let ghost before = words@;
                let last: usize = words.len() - 1;
                words[last].push(c);
                assert(word_views(words@) =~= words_of(grown)) by {
                    assert(word_views(before) == words_of(line));
                    assert(before[last as int]@ == words_of(line).last());
                }
            } else {
                let mut word: Vec<char> = Vec::new();
                word.push(c);
                let ghost before = words@;
                words.push(word);
                inside = true;
                assert(word@ =~= seq![c]);
                assert(word_views(words@) =~= words_of(line).push(seq![c])) by {
                    assert(word_views(before) == words_of(line));
                }
            }
        }
        i += 1;
    }
    assert(raw@.take(i as int) =~= raw@);
    finish_line(&mut lines, words, number);
    lines
}

/// Whether every word was a number.
pub open spec fn all_numbers(numbers: Seq<Option<Double>>) -> bool {
    forall|i: int| 0 <= i < numbers.len() ==> (#[trigger] numbers[i]) is Some
}

/// The ten numbers of a line, if its words are numbers and there are ten of them.
/// `numbers` is what the words stand for.
pub fn line_numbers(number: usize, numbers: &Vec<Option<Double>>) -> (res: Result<
    Vec<Double>,
    PriorError,
>)
    ensures
        match res {
            Ok(v) => all_numbers(numbers@) && numbers@.len() == LINE_NUMBERS && v@.len()
                == LINE_NUMBERS && forall|i: int|
                0 <= i < LINE_NUMBERS ==> Some(#[trigger] v@[i]) == numbers@[i],
            Err(e) => if !all_numbers(numbers@) {
                e == PriorError::BadNumber(number)
            } else {
                numbers@.len() != LINE_NUMBERS && e == PriorError::BadCount(number)
            },
        },
{
    let mut v: Vec<Double> = Vec::new();
    let mut i: usize = 0;
    while i < numbers.len()
        invariant
            i <= numbers@.len(),
            v@.len() == i,
            forall|k: int| 0 <= k < i ==> Some(#[trigger] v@[k]) == numbers@[k],
            forall|k: int| 0 <= k < i ==> (#[trigger] numbers@[k]) is Some,
        decreases numbers@.len() - i,
    {
        match numbers[i] {
            Some(d) => {
                v.push(d);
            },
            None => {
                assert(numbers@[i as int] is None);
                return Err(PriorError::BadNumber(number));
            },
        }
        i += 1;
    }
    if v.len() != LINE_NUMBERS {
        return Err(PriorError::BadCount(number));
    }
    Ok(v)
}

/// A vector's length, and the vector at length one.
#[derive(Clone, Copy, Debug)]
pub struct Direction {
    /// The length.
    pub length: Double,
    /// The vector at length one.
    pub unit: [Double; 3],
}

/// Whether the numbers of a line make a plane: scale and extent are positive, and
/// the normal is not zero.
pub open spec fn sound(v: Seq<Double>, normal_length: Double) -> bool {
    !v[7].spec_le(Double { bits: 0 }) && !v[8].spec_le(Double { bits: 0 }) && !normal_length.spec_lt(
        Double { bits: MIN_NORMAL },
    )
}

/// The identity times a number.
pub open spec fn scaled_unit<T: Fn(Double, Double) -> Double>(scale: Double, times: T) -> spec_fn(
    int,
    int,
) -> Double {
    |i: int, j: int| of_two(times, unit()(i, j), scale)
}

/// The identity of six rows times a number.
fn six_unit<T: Fn(Double, Double) -> Double>(scale: Double, times: &T) -> (m: Six)
    requires
        binary(*times),
    ensures
        m.holds(scaled_unit(scale, *times)),
{
    let mut m = Six::filled(apply_two(times, Double::zero(), scale));
    let one = apply_two(times, Double::one(), scale);
    m.set(0, 0, one);
    m.set(1, 1, one);
    m.set(2, 2, one);
    m.set(3, 3, one);
    m.set(4, 4, one);
    m.set(5, 5, one);
    m
}

/// The identity of three rows times a number, row by row.
fn three_unit<T: Fn(Double, Double) -> Double>(scale: Double, times: &T) -> (m: [Double; 9])
    requires
        binary(*times),
    ensures
        forall|i: int, j: int|
            0 <= i < 3 && 0 <= j < 3 ==> #[trigger] three_by_three(m@)(i, j) == scaled_unit(
                scale,
                *times,
            )(i, j),
{
    let o = apply_two(times, Double::zero(), scale);
    let i = apply_two(times, Double::one(), scale);
    [i, o, o, o, i, o, o, o, i]
}

/// Whether a plane is what the ten numbers of a line say. It counts as mature.
pub open spec fn is_plane_of<T: Fn(Double, Double) -> Double>(
    p: &VoxelPlane,
    v: Seq<Double>,
    unit_normal: [Double; 3],
    times: T,
) -> bool {
    &&& p.center@ == v.subrange(0, 3)
    &&& p.normal == unit_normal
    &&& p.d == v[6]
    &&& p.plane_var.holds(scaled_unit(v[7], times))
    &&& forall|i: int, j: int|
        0 <= i < 3 && 0 <= j < 3 ==> #[trigger] three_by_three(p.covariance@)(i, j) == scaled_unit(
            v[8],
            times,
        )(i, j)
    &&& p.radius == v[8]
    &&& p.eigen_min.bits == READ_EIGEN_MIN
    &&& p.eigen_mid == of_two(times, v[8], v[8])
    &&& p.eigen_max == of_two(times, v[8], v[8])
    &&& p.points_count == v[9].index_clamped()
    &&& p.is_plane
    &&& p.is_mature
}

/// The plane of a line. `normal` is the length and the direction of the line's
/// fourth to sixth number.
pub fn line_plane<T: Fn(Double, Double) -> Double>(
    number: usize,
    v: &Vec<Double>,
    normal: Direction,
    times: &T,
) -> (res: Result<VoxelPlane, PriorError>)
    requires
        v@.len() == LINE_NUMBERS,
        binary(*times),
    ensures
        match res {
            Ok(p) => sound(v@, normal.length) && is_plane_of(&p, v@, normal.unit, *times),
            Err(e) => !sound(v@, normal.length) && e == PriorError::BadValue(number),
        },
{
    let zero = Double::zero();
    if v[7].le(zero) || v[8].le(zero) || normal.length.lt(Double { bits: MIN_NORMAL }) {
        return Err(PriorError::BadValue(number));
    }
    let center = [v[0], v[1], v[2]];
    assert(center@ =~= v@.subrange(0, 3));
    let radius_sq = apply_two(times, v[8], v[8]);
    Ok(
        VoxelPlane {
            center,
            normal: normal.unit,
            d: v[6],
            plane_var: six_unit(v[7], times),
            covariance: three_unit(v[8], times),
            radius: v[8],
            eigen_min: Double { bits: READ_EIGEN_MIN },
            eigen_mid: radius_sq,
            eigen_max: radius_sq,
            points_count: v[9].to_usize(),
            is_plane: true,
            is_mature: true,
        },
    )
}

/// Whether words can be read as numbers, always in the same way.
pub open spec fn reads<N: Fn(&Vec<char>) -> Option<Double>>(number_of: N) -> bool {
    &&& forall|w: &Vec<char>| #[trigger] call_requires(number_of, (w,))
    &&& forall|v: &Vec<char>, w: &Vec<char>, a: Option<Double>, b: Option<Double>| #[trigger]
        call_ensures(number_of, (v,), a) && #[trigger] call_ensures(number_of, (w,), b) && v@ == w@
            ==> a == b
}

/// Whether a reading of a word gives the number.
pub open spec fn read_as<N: Fn(&Vec<char>) -> Option<Double>>(
    number_of: N,
    word: Seq<char>,
    r: Option<Double>,
) -> bool {
    exists|w: &Vec<char>| w@ == word && #[trigger] call_ensures(number_of, (w,), r)
}

/// The number that a word stands for, if it does.
pub open spec fn word_number<N: Fn(&Vec<char>) -> Option<Double>>(
    number_of: N,
    word: Seq<char>,
) -> Option<Double> {
    choose|r: Option<Double>| read_as(number_of, word, r)
}

/// What the words of a line stand for.
pub open spec fn word_numbers<N: Fn(&Vec<char>) -> Option<Double>>(
    number_of: N,
    words: Seq<Seq<char>>,
) -> Seq<Option<Double>> {
    Seq::new(words.len(), |i: int| word_number(number_of, words[i]))
}

/// The numbers among them.
pub open spec fn values(numbers: Seq<Option<Double>>) -> Seq<Double> {
    Seq::new(numbers.len(), |i: int| numbers[i]->0)
}

/// Whether a vector's length and direction can be told, always in the same way.
pub open spec fn directs<D: Fn([Double; 3]) -> Direction>(direct: D) -> bool {
    &&& forall|v: [Double; 3]| #[trigger] call_requires(direct, (v,))
    &&& forall|v: [Double; 3], w: [Double; 3], a: Direction, b: Direction| #[trigger]
        call_ensures(direct, (v,), a) && #[trigger] call_ensures(direct, (w,), b) && v@ == w@ ==> a
            == b
}

/// Whether looking at a vector gives the length and the direction.
pub open spec fn directed_as<D: Fn([Double; 3]) -> Direction>(
    direct: D,
    v: Seq<Double>,
    r: Direction,
) -> bool {
    exists|w: [Double; 3]| w@ == v && #[trigger] call_ensures(direct, (w,), r)
}

/// The length and the direction of a vector.
pub open spec fn direction<D: Fn([Double; 3]) -> Direction>(direct: D, v: Seq<Double>) -> Direction {
    choose|r: Direction| directed_as(direct, v, r)
}

/// What is wrong with a line, if anything is.
pub open spec fn line_error<
    N: Fn(&Vec<char>) -> Option<Double>,
    D: Fn([Double; 3]) -> Direction,
>(line: LineView, number_of: N, direct: D) -> Option<PriorError> {
    let numbers = word_numbers(number_of, line.words);
    let v = values(numbers);
    let number = line.number as usize;
    if !all_numbers(numbers) {
        Some(PriorError::BadNumber(number))
    } else if numbers.len() != LINE_NUMBERS {
        Some(PriorError::BadCount(number))
    } else if !sound(v, direction(direct, v.subrange(3, 6)).length) {
        Some(PriorError::BadValue(number))
    } else {
        None
    }
}

/// The numbers that the words of a line stand for.
fn read_words<N: Fn(&Vec<char>) -> Option<Double>>(words: &Vec<Vec<char>>, number_of: &N) -> (
    numbers: Vec<Option<Double>>)
    requires
        reads(*number_of),
    ensures
        numbers@ == word_numbers(*number_of, word_views(words@)),
{
    let mut numbers: Vec<Option<Double>> = Vec::new();
    let mut i: usize = 0;
    while i < words.len()
        invariant
            i <= words@.len(),
            reads(*number_of),
            numbers@.len() == i,
            forall|k: int|
                0 <= k < i ==> #[trigger] numbers@[k] == word_number(*number_of, words@[k]@),
        decreases words@.len() - i,
    {
        let word = &words[i];
        let r = number_of(word);
        proof {
            assert(call_ensures(*number_of, (word,), r));
            assert(read_as(*number_of, word@, r));
            let n = word_number(*number_of, word@);
            assert(read_as(*number_of, word@, n));
        }
        numbers.push(r);
        i += 1;
    }
    assert(numbers@ =~= word_numbers(*number_of, word_views(words@)));
    numbers
}

/// Whether planes are those of a text: one for each line that holds one.
pub open spec fn are_planes_of<
    N: Fn(&Vec<char>) -> Option<Double>,
    D: Fn([Double; 3]) -> Direction,
    T: Fn(Double, Double) -> Double,
>(planes: Seq<VoxelPlane>, lines: Seq<LineView>, number_of: N, direct: D, times: T) -> bool {
    &&& planes.len() == lines.len()
    &&& forall|i: int|
        0 <= i < lines.len() ==> line_error(#[trigger] lines[i], number_of, direct) is None
    &&& forall|i: int|
        0 <= i < lines.len() ==> {
            let v = values(word_numbers(number_of, lines[i].words));
            is_plane_of(
                #[trigger] &planes[i],
                v,
                direction(direct, v.subrange(3, 6)).unit,
                times,
            )
        }
}

/// Whether an error is that of the first line that does not hold what it should.
pub open spec fn is_first_error<
    N: Fn(&Vec<char>) -> Option<Double>,
    D: Fn([Double; 3]) -> Direction,
>(e: PriorError, lines: Seq<LineView>, number_of: N, direct: D) -> bool {
    exists|i: int|
        0 <= i < lines.len() && line_error(#[trigger] lines[i], number_of, direct) == Some(e)
            && forall|k: int|
            0 <= k < i ==> line_error(#[trigger] lines[k], number_of, direct) is None
}

/// The planes of a text, or what is wrong with its first faulty line.
fn parse_planes<
    N: Fn(&Vec<char>) -> Option<Double>,
    D: Fn([Double; 3]) -> Direction,
    T: Fn(Double, Double) -> Double,
>(raw: &Vec<char>, number_of: &N, direct: &D, times: &T) -> (res: Result<
    Vec<VoxelPlane>,
    PriorError,
>)
    requires
        raw@.len() < usize::MAX,
        reads(*number_of),
        directs(*direct),
        binary(*times),
    ensures
        ({
            let lines = plane_lines(lines_of(raw@), lines_of(raw@).len() as int);
            match res {
                Ok(planes) => are_planes_of(planes@, lines, *number_of, *direct, *times),
                Err(e) => is_first_error(e, lines, *number_of, *direct),
            }
        }),
{
    let lines = split_text(raw);
    let ghost views = line_views(lines@);
    let mut planes: Vec<VoxelPlane> = Vec::new();
    let mut i: usize = 0;
    while i < lines.len()
        invariant
            i <= lines@.len(),
            views == line_views(lines@),
            views == plane_lines(lines_of(raw@), lines_of(raw@).len() as int),
            reads(*number_of),
            directs(*direct),
            binary(*times),
            planes@.len() == i,
            forall|k: int|
                0 <= k < i ==> line_error(#[trigger] views[k], *number_of, *direct) is None,
            forall|k: int|
                0 <= k < i ==> {
                    let v = values(word_numbers(*number_of, views[k].words));
                    is_plane_of(
                        #[trigger] &planes@[k],
                        v,
                        direction(*direct, v.subrange(3, 6)).unit,
                        *times,
                    )
                },
        decreases lines@.len() - i,
    {
        let line = &lines[i];
        let ghost view = views[i as int];
        assert(view == (LineView { number: line.number as int, words: word_views(line.words@) }));
        let numbers = read_words(&line.words, number_of);
        let v = match line_numbers(line.number, &numbers) {
            Ok(v) => v,
            Err(e) => {
                assert(line_error(views[i as int], *number_of, *direct) == Some(e));
                return Err(e);
            },
        };
        assert(v@ =~= values(numbers@));
        let normal = [v[3], v[4], v[5]];
        let told = direct(normal);
        proof {
            assert(normal@ =~= v@.subrange(3, 6));
            assert(call_ensures(*direct, (normal,), told));
            assert(directed_as(*direct, normal@, told));
            assert(directed_as(*direct, normal@, direction(*direct, normal@)));
        }
        match line_plane(line.number, &v, told, times) {
            Ok(plane) => {
                planes.push(plane);
            },
            Err(e) => {
                assert(line_error(views[i as int], *number_of, *direct) == Some(e));
                return Err(e);
            },
        }
        i += 1;
    }
    Ok(planes)
}

impl PriorPlaneMap {
    /// The map of the planes in a text, one for each line that holds one, or what
    /// is wrong with the first line that does not hold what it should.
    pub fn parse_text<
        N: Fn(&Vec<char>) -> Option<Double>,
        D: Fn([Double; 3]) -> Direction,
        T: Fn(Double, Double) -> Double,
        P: Fn(Double, Double) -> Double,
        V: Fn(Double, Double) -> Double,
    >(raw: &Vec<char>, number_of: &N, direct: &D, times: &T, plus: &P, divide: &V) -> (res: Result<
        PriorPlaneMap,
        PriorError,
    >)
        requires
            raw@.len() < usize::MAX,
            reads(*number_of),
            directs(*direct),
            binary(*times),
            binary(*plus),
            binary(*divide),
        ensures
            ({
                let lines = plane_lines(lines_of(raw@), lines_of(raw@).len() as int);
                match res {
                    Ok(map) => {
                        &&& are_planes_of(map.all(), lines, *number_of, *direct, *times)
                        &&& map.wf()
                        &&& map.everywhere() == large_planes(map.all(), map.all().len() as int)
                        &&& forall|k: VoxelKey| #[trigger]
                            map.local(k) == touching(
                                map.all(),
                                extents(map.all(), *plus, *divide),
                                k,
                                map.all().len() as int,
                            )
                    },
                    Err(e) => is_first_error(e, lines, *number_of, *direct),
                }
            }),
    {
        let planes = match parse_planes(raw, number_of, direct, times) {
            Ok(planes) => planes,
            Err(e) => {
                return Err(e);
            },
        };
        Ok(PriorPlaneMap::from_planes(planes, plus, divide))
    }
}

} // verus!
