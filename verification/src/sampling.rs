//! Chance: uniform draws from zero to one, and points drawn inside the unit
//! disk and the unit sphere.
//!
//! The generator is the only thing here that is not verified. Everything
//! that is made of its words is a function of those words and is proved for
//! every word.

use vstd::prelude::*;
use vstd::arithmetic::power2::*;
use crate::binary32::{Binary32, magnitude_of, lemma_magnitude_linear, unit_scale};
use crate::rounding::{
    nearest, lemma_rounding_exists, lemma_rounding_monotone, lemma_rounds_held,
};
use crate::vec3f::Vec3f32;

verus! {

/// How many points are drawn at most when a point is drawn from the
/// generator: behind the last of them the drawn words have run out, and the
/// centre stands in. A draw lands inside the disk about three times in four
/// and inside the sphere about once in two, so this is all but impossible.
/// Words that are given are searched to their end.
pub const SAMPLING_TRIES: u32 = 100;

/// How many bounces a path can take: the hard ceiling of the recursion.
pub const MAX_DEPTH: u32 = 50;

/// Pattern of 2^-24, the spacing of the uniform draws.
pub const DRAW_STEP_BITS: u32 = 0x3380_0000;

/// Pattern of 1.
pub const ONE_BITS: u32 = 0x3f80_0000;

/// Pattern of 2.
pub const TWO_BITS: u32 = 0x4000_0000;

/// Calls `rand::random::<u32>()`, which takes the next word of the thread's
/// generator. Nothing is claimed of the word. The call fails only where the
/// system gives the generator nothing to start from.
#[verifier::external_body]
fn random_word() -> (word: u32) {
    rand::random::<u32>()
}

/// The draw that a random word stands for: its upper 24 bits as a whole
/// number, times 2^-24. Both steps are exact, so the draws are the multiples
/// of 2^-24 from zero up to, but not including, one.
pub open spec fn unit_from_word_spec(word: u32) -> Binary32 {
    Binary32::spec_from_u32((word / 256) as u32).spec_mul(Binary32 { bits: DRAW_STEP_BITS })
}

/// Whether `x` is a number from zero up to, but not including, one.
pub open spec fn is_unit_draw(x: Binary32) -> bool {
    (Binary32 { bits: 0 }).spec_le(x) && x.spec_lt(Binary32 { bits: ONE_BITS })
}

/// Every word stands for a draw from zero up to, but not including, one.
pub proof fn lemma_unit_from_word_in_range(word: u32)
    ensures
        is_unit_draw(unit_from_word_spec(word)),
{
    let v = (word / 256) as u32;
    let unit = unit_scale();
    let whole = Binary32::spec_from_u32(v);
    let na = nearest(v * unit, 1);
    let top = 0x4b7f_ffff;
    let lim = 0x3f7f_ffff;
    lemma2_to64();
    lemma_pow2_pos(149);
    lemma_pow2_adds(23, 102);
    lemma_pow2_adds(125, 149);
    lemma_rounding_exists(v * unit, 1);
    lemma_rounds_held(top, 1);
    lemma_magnitude_linear(149, 0xff_ffff);
    assert(v * unit <= 0xff_ffff * unit) by (nonlinear_arith)
        requires
            v <= 0xff_ffff,
            unit > 0,
    ;
    lemma_rounding_monotone(na, v * unit, 1, top, magnitude_of(top) * 1, 1);
    assert(whole.abs_bits() == na);
    crate::binary32::lemma_magnitude_order(na, top);
    // the step is 2^125 units
    let step = Binary32 { bits: DRAW_STEP_BITS };
    lemma_magnitude_linear(102, 0x80_0000);
    assert(step.magnitude() == pow2(125));
    let num = whole.magnitude() * step.magnitude();
    let nb = nearest(num, unit);
    lemma_rounding_exists(num, unit);
    lemma_rounds_held(lim, unit);
    lemma_magnitude_linear(125, 0xff_ffff);
    assert(num * unit <= (magnitude_of(lim) * unit) * unit) by (nonlinear_arith)
        requires
            num == whole.magnitude() * pow2(125),
            whole.magnitude() <= 0xff_ffff * unit,
            magnitude_of(lim) == 0xff_ffff * pow2(125),
            unit > 0,
            pow2(125) > 0,
    ;
    lemma_rounding_monotone(nb, num, unit, lim, magnitude_of(lim) * unit, unit);
    let r = unit_from_word_spec(word);
    assert(r == Binary32::compose(false, nb));
    crate::binary32::lemma_magnitude_order(nb, ONE_BITS as int);
    crate::binary32::lemma_magnitude_order(0, nb);
    crate::binary32::lemma_one_is_unit_scale();
}

/// The draw that a random word stands for.
pub fn unit_from_word(word: u32) -> (r: Binary32)
    ensures
        r == unit_from_word_spec(word),
        is_unit_draw(r),
{
    proof {
        lemma_unit_from_word_in_range(word);
    }
    Binary32::from_u32(word / 256) * Binary32 { bits: DRAW_STEP_BITS }
}

/// A uniform draw from zero up to, but not including, one, made of the next
/// word of the thread's generator.
pub fn random_unit() -> (r: Binary32)
    ensures
        is_unit_draw(r),
        exists|word: u32| r == unit_from_word_spec(word),
{
    let word = random_word();
    unit_from_word(word)
}

/// The point of the square from -1 to 1 that two draws stand for: each draw
/// doubled, less one; the third component is zero.
pub open spec fn disk_point_spec(a: Binary32, b: Binary32) -> Vec3f32 {
    (Vec3f32 { x: a, y: b, z: Binary32 { bits: 0 } }).spec_scale(Binary32 { bits: TWO_BITS })
        .spec_sub(
        Vec3f32 {
            x: Binary32 { bits: ONE_BITS },
            y: Binary32 { bits: ONE_BITS },
            z: Binary32 { bits: 0 },
        },
    )
}

/// The point of the cube from -1 to 1 that three draws stand for: each draw
/// doubled, less one.
pub open spec fn ball_point_spec(a: Binary32, b: Binary32, c: Binary32) -> Vec3f32 {
    (Vec3f32 { x: a, y: b, z: c }).spec_scale(Binary32 { bits: TWO_BITS }).spec_sub(
        Vec3f32 {
            x: Binary32 { bits: ONE_BITS },
            y: Binary32 { bits: ONE_BITS },
            z: Binary32 { bits: ONE_BITS },
        },
    )
}

/// Whether the point's squared length is below one.
pub open spec fn inside_unit_spec(p: Vec3f32) -> bool {
    p.spec_squared_length().spec_lt(Binary32 { bits: ONE_BITS })
}

/// A point of the disk's square lies in the plane `z = 0`.
pub proof fn lemma_disk_point_flat(a: Binary32, b: Binary32)
    ensures
        disk_point_spec(a, b).z == (Binary32 { bits: 0 }),
{
    let zero = Binary32 { bits: 0 };
    let two = Binary32 { bits: TWO_BITS };
    lemma_pow2_pos(149);
    lemma_rounds_held(0, unit_scale());
    assert(magnitude_of(0) == 0);
    assert(zero.magnitude() * two.magnitude() == 0) by (nonlinear_arith)
        requires
            zero.magnitude() == 0,
    ;
    assert(magnitude_of(0) * unit_scale() == 0) by (nonlinear_arith)
        requires
            magnitude_of(0) == 0,
    ;
    assert(zero.spec_mul(two) == zero);
    assert(zero.spec_sub(zero) == zero);
}

/// The point of the square from -1 to 1 that two draws stand for.
pub fn disk_point(a: Binary32, b: Binary32) -> (p: Vec3f32)
    ensures
        p == disk_point_spec(a, b),
        p.z == (Binary32 { bits: 0 }),
{
    proof {
        lemma_disk_point_flat(a, b);
    }
    let one = Binary32::one();
    let two = Binary32 { bits: TWO_BITS };
    (Vec3f32 { x: a, y: b, z: Binary32::zero() }) * two - Vec3f32 {
        x: one,
        y: one,
        z: Binary32::zero(),
    }
}

/// The point of the cube from -1 to 1 that three draws stand for.
pub fn ball_point(a: Binary32, b: Binary32, c: Binary32) -> (p: Vec3f32)
    ensures
        p == ball_point_spec(a, b, c),
{
    let one = Binary32::one();
    let two = Binary32 { bits: TWO_BITS };
    (Vec3f32 { x: a, y: b, z: c }) * two - Vec3f32 { x: one, y: one, z: one }
}

/// Whether the point's squared length is below one: the test that a drawn
/// point must pass to be kept.
pub fn inside_unit(p: &Vec3f32) -> (r: bool)
    ensures
        r == inside_unit_spec(*p),
{
    p.squared_length().lt(Binary32::one())
}

/// The zero vector is inside the unit sphere.
pub proof fn lemma_centre_inside()
    ensures
        inside_unit_spec(Vec3f32::spec_zeroes()),
        Vec3f32::spec_zeroes().spec_squared_length() == (Binary32 { bits: 0 }),
{
    crate::vec3f::lemma_zero_vector();
    crate::binary32::lemma_one_is_unit_scale();
    lemma_pow2_pos(149);
    assert(magnitude_of(0) == 0);
}

/// The point that the words from `start` on stand for: the first of the
/// points they spell, taken two words at a time for the disk (`flat`) and
/// three at a time for the sphere, that has a squared length below one,
/// wherever among the words it stands; and the centre where the words run
/// out before one is found.
pub open spec fn sample_from_words_spec(words: Seq<u32>, start: nat, flat: bool) -> Vec3f32
    decreases words.len() - start,
{
    let step = stride(flat);
    if start + step > words.len() {
        Vec3f32::spec_zeroes()
    } else {
        let p = candidate_spec(words, start, flat);
        if inside_unit_spec(p) {
            p
        } else {
            sample_from_words_spec(words, start + step, flat)
        }
    }
}

/// The point that the words at `start` spell.
pub open spec fn candidate_spec(words: Seq<u32>, start: nat, flat: bool) -> Vec3f32 {
    if flat {
        disk_point_spec(
            unit_from_word_spec(words[start as int]),
            unit_from_word_spec(words[start as int + 1]),
        )
    } else {
        ball_point_spec(
            unit_from_word_spec(words[start as int]),
            unit_from_word_spec(words[start as int + 1]),
            unit_from_word_spec(words[start as int + 2]),
        )
    }
}

/// Whatever the words, the point they stand for lies inside the unit
/// sphere, and in the plane `z = 0` if it was asked for the disk.
pub proof fn lemma_sample_inside(words: Seq<u32>, start: nat, flat: bool)
    ensures
        inside_unit_spec(sample_from_words_spec(words, start, flat)),
        flat ==> sample_from_words_spec(words, start, flat).z == (Binary32 { bits: 0 }),
    decreases words.len() - start,
{
    let step = stride(flat);
    lemma_centre_inside();
    if start + step > words.len() {
    } else {
        if flat {
            lemma_disk_point_flat(
                unit_from_word_spec(words[start as int]),
                unit_from_word_spec(words[start as int + 1]),
            );
        }
        lemma_sample_inside(words, start + step, flat);
    }
}

/// How many words spell one point.
pub open spec fn stride(flat: bool) -> nat {
    if flat {
        2
    } else {
        3
    }
}

/// Whether the `k`-th point that the words spell is there and has failed.
pub open spec fn try_failed(words: Seq<u32>, k: nat, flat: bool) -> bool {
    (k + 1) * stride(flat) <= words.len() && !inside_unit_spec(
        candidate_spec(words, k * stride(flat), flat),
    )
}

/// Tries that fail do not change what the words stand for: after `done`
/// failed tries the search goes on behind them.
proof fn lemma_failed_tries(words: Seq<u32>, done: nat, flat: bool)
    requires
        forall|k: nat| k < done ==> #[trigger] try_failed(words, k, flat),
    ensures
        sample_from_words_spec(words, 0, flat) == sample_from_words_spec(
            words,
            done * stride(flat),
            flat,
        ),
    decreases done,
{
    let step = stride(flat);
    if done > 0 {
        let k = (done - 1) as nat;
        lemma_failed_tries(words, k, flat);
        assert(try_failed(words, k, flat));
        assert((k + 1) * step == k * step + step) by (nonlinear_arith);
        assert(done * step == k * step + step) by (nonlinear_arith)
            requires
                done == k + 1,
        ;
    }
}

/// Looks for a point inside the unit disk or sphere. Where `fixed` is given
/// the words are taken from it, as far as they go; where it is not, they
/// are drawn, for `SAMPLING_TRIES` points at most. Returns the point and
/// the words that were there to be used.
fn search(fixed: Option<&Vec<u32>>, flat: bool) -> (out: (Vec3f32, Ghost<Seq<u32>>))
    ensures
        out.0 == sample_from_words_spec(out.1@, 0, flat),
        fixed matches Some(words) ==> out.1@ == words@,
        fixed is None ==> out.1@.len() <= SAMPLING_TRIES * stride(flat),
{
    let step: usize = if flat {
        2
    } else {
        3
    };
    let limit: usize = match fixed {
        Some(words) => words.len() / step,
        None => SAMPLING_TRIES as usize,
    };
    let ghost mut used: Seq<u32> = match fixed {
        Some(words) => words@,
        None => Seq::empty(),
    };
    let mut tries: usize = 0;
    while tries < limit
        invariant
            tries <= limit,
            step == stride(flat),
            fixed matches Some(words) ==> used == words@ && words@.len() <= usize::MAX && limit
                == words@.len() as int / (step as int),
            fixed is None ==> used.len() == tries * step && limit == SAMPLING_TRIES,
            forall|k: nat| k < tries ==> #[trigger] try_failed(used, k, flat),
        decreases limit - tries,
    {
        let ghost before = used;
        proof {
            assert((tries + 1) * step == tries * step + step) by (nonlinear_arith);
            assert((tries + 1) * step <= limit * step) by (nonlinear_arith)
                requires
                    tries + 1 <= limit,
                    step > 0,
            ;
            if fixed is Some {
                if flat {
                    assert((used.len() as int / 2) * 2 <= used.len());
                } else {
                    assert((used.len() as int / 3) * 3 <= used.len());
                }
                assert(limit * step <= used.len());
            } else {
                assert(limit * step <= 300) by (nonlinear_arith)
                    requires
                        limit == 100,
                        step <= 3,
                ;
            }
            assert(tries * step + step <= limit * step);
        }
        let start = tries * step;
        let (w0, w1, w2) = match fixed {
            Some(words) => (
                words[start],
                words[start + 1],
                if flat {
                    0
                } else {
                    words[start + 2]
                },
            ),
            None => {
                let w0 = random_word();
                let w1 = random_word();
                let w2 = if flat {
                    0
                } else {
                    random_word()
                };
                proof {
                    used = if flat {
                        used.push(w0).push(w1)
                    } else {
                        used.push(w0).push(w1).push(w2)
                    };
                }
                (w0, w1, w2)
            },
        };
        let p = if flat {
            disk_point(unit_from_word(w0), unit_from_word(w1))
        } else {
            ball_point(unit_from_word(w0), unit_from_word(w1), unit_from_word(w2))
        };
        proof {
            assert(p == candidate_spec(used, (tries * step) as nat, flat));
            assert forall|k: nat| k < tries implies #[trigger] try_failed(used, k, flat) by {
                assert(try_failed(before, k, flat));
                assert((k + 1) * step <= tries * step) by (nonlinear_arith)
                    requires
                        k + 1 <= tries,
                ;
                assert((k + 1) * step == k * step + step) by (nonlinear_arith);
                assert(candidate_spec(used, k * (step as nat), flat) == candidate_spec(
                    before,
                    k * (step as nat),
                    flat,
                ));
            }
        }
        if inside_unit(&p) {
            proof {
                lemma_failed_tries(used, tries as nat, flat);
            }
            return (p, Ghost(used));
        }
        tries = tries + 1;
    }
    proof {
        lemma_failed_tries(used, tries as nat, flat);
        // behind the last whole point the words have run out
        assert(tries * step + step > used.len()) by {
            if fixed is Some {
                if flat {
                    assert((used.len() as int / 2) * 2 + 2 > used.len());
                } else {
                    assert((used.len() as int / 3) * 3 + 3 > used.len());
                }
            }
        }
    }
    (Vec3f32::zeroes(), Ghost(used))
}

/// The point inside the unit disk of the plane `z = 0` that the words stand
/// for: the first of the points of the square from -1 to 1 that they spell,
/// two words at a time, whose squared length is below one, however many
/// points fail before it. Where the words run out before such a point, it
/// is the centre.
pub fn disk_from_words(words: &Vec<u32>) -> (p: Vec3f32)
    ensures
        p == sample_from_words_spec(words@, 0, true),
        inside_unit_spec(p),
        p.z == (Binary32 { bits: 0 }),
{
    proof {
        lemma_sample_inside(words@, 0, true);
    }
    let (p, _) = search(Some(words), true);
    p
}

/// The point inside the unit sphere that the words stand for: the first of
/// the points of the cube from -1 to 1 that they spell, three words at a
/// time, whose squared length is below one, however many points fail before
/// it. Where the words run out before such a point, it is the centre.
pub fn ball_from_words(words: &Vec<u32>) -> (p: Vec3f32)
    ensures
        p == sample_from_words_spec(words@, 0, false),
        inside_unit_spec(p),
{
    proof {
        lemma_sample_inside(words@, 0, false);
    }
    let (p, _) = search(Some(words), false);
    p
}

/// A point drawn inside the unit disk of the plane `z = 0`: the point that
/// `disk_from_words` gives for the words that the thread's generator hands
/// out. Words are drawn until a point passes, for `SAMPLING_TRIES` points
/// at most.
pub fn random_in_unit_disk() -> (p: Vec3f32)
    ensures
        exists|words: Seq<u32>|
            words.len() <= SAMPLING_TRIES * 2 && p == sample_from_words_spec(words, 0, true),
        inside_unit_spec(p),
        p.z == (Binary32 { bits: 0 }),
{
    let (p, Ghost(used)) = search(None, true);
    proof {
        lemma_sample_inside(used, 0, true);
        assert(used.len() <= SAMPLING_TRIES * 2 && p == sample_from_words_spec(used, 0, true));
    }
    p
}

/// A point drawn inside the unit sphere: the point that `ball_from_words`
/// gives for the words that the thread's generator hands out. Words are
/// drawn until a point passes, for `SAMPLING_TRIES` points at most.
pub fn random_in_unit_sphere() -> (p: Vec3f32)
    ensures
        exists|words: Seq<u32>|
            words.len() <= SAMPLING_TRIES * 3 && p == sample_from_words_spec(words, 0, false),
        inside_unit_spec(p),
{
    let (p, Ghost(used)) = search(None, false);
    proof {
        lemma_sample_inside(used, 0, false);
        assert(used.len() <= SAMPLING_TRIES * 3 && p == sample_from_words_spec(used, 0, false));
    }
    p
}

/// The chance that one bounce may use: a point inside the unit sphere for a
/// diffuse or a rough surface, and a draw for glass.
#[derive(Clone, Copy, Debug, PartialEq, Eq, Structural)]
pub struct BounceSample {
    pub point: Vec3f32,
    pub draw: Binary32,
}

impl BounceSample {
    /// The point lies inside the unit sphere and the draw from zero up to,
    /// but not including, one.
    pub open spec fn wf(self) -> bool {
        inside_unit_spec(self.point) && is_unit_draw(self.draw)
    }

    /// The sample is one that words spell: the point as `ball_from_words`
    /// makes it of some words, `SAMPLING_TRIES` points' worth at most, and
    /// the draw as `unit_from_word` makes it of one word.
    pub open spec fn drawn(self) -> bool {
        &&& exists|words: Seq<u32>|
            words.len() <= SAMPLING_TRIES * 3 && self.point == sample_from_words_spec(
                words,
                0,
                false,
            )
        &&& exists|word: u32| self.draw == unit_from_word_spec(word)
    }
}

/// The chance for one bounce, drawn from the thread's generator: a point
/// as `ball_from_words` makes it of the words drawn, and a draw as
/// `unit_from_word` makes it of one more.
pub fn random_bounce() -> (s: BounceSample)
    ensures
        s.wf(),
        s.drawn(),
{
    let point = random_in_unit_sphere();
    let draw = random_unit();
    BounceSample { point, draw }
}

/// The chance for a whole path: one sample for each depth up to
/// `MAX_DEPTH`, each as `random_bounce` draws it.
pub fn random_bounces() -> (v: Vec<BounceSample>)
    ensures
        v@.len() == MAX_DEPTH,
        forall|i: int| 0 <= i < v@.len() ==> (#[trigger] v@[i]).wf() && v@[i].drawn(),
{
    let mut v: Vec<BounceSample> = Vec::new();
    let mut i: u32 = 0;
    while i < MAX_DEPTH
        invariant
            i <= MAX_DEPTH,
            v@.len() == i,
            forall|k: int| 0 <= k < v@.len() ==> (#[trigger] v@[k]).wf() && v@[k].drawn(),
        decreases MAX_DEPTH - i,
    {
        let s = random_bounce();
        v.push(s);
        i = i + 1;
    }
    v
}

} // verus!
