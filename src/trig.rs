use vstd::prelude::*;
use crate::caster::{abs, dir_ok};
use crate::fixed::floor_mod;

verus! {

/// Fixed-point one: sines and cosines are scaled by this.
pub const TRIG_ONE: i64 = 16384;

/// Angles are integers; this many make a full turn.
pub const ANGLE_UNITS: i64 = 4096;

/// The arctangent table holds `atan(m / ATAN_STEPS)` for `m` in `0..=ATAN_STEPS`.
pub const ATAN_STEPS: i64 = 1024;

/// Largest magnitude of a vector component that `atan2` accepts.
pub const ATAN_INPUT_LIMIT: i64 = 0x1_0000_0000;

/// Sampled trigonometry: `sin[k]` is `sin(2*pi*k / ANGLE_UNITS)` scaled by `TRIG_ONE`, and
/// `atan[m]` is `atan(m / ATAN_STEPS)` in angle units.
pub struct TrigTable {
    pub sin: Vec<i64>,
    pub atan: Vec<i64>,
}

/// Index of an angle in the sine table.
pub open spec fn angle_index(a: int) -> int {
    a % (ANGLE_UNITS as int)
}

/// An angle brought into `(-ANGLE_UNITS / 2, ANGLE_UNITS / 2]`.
pub open spec fn normalize_spec(a: int) -> int {
    let r = angle_index(a);
    if r > ANGLE_UNITS / 2 {
        r - ANGLE_UNITS
    } else {
        r
    }
}

/// `(c, s)` has length `TRIG_ONE` to within rounding: its squared length is within
/// `2 * TRIG_ONE` of `TRIG_ONE` squared.
pub open spec fn near_unit(c: int, s: int) -> bool {
    TRIG_ONE * TRIG_ONE - 2 * TRIG_ONE <= c * c + s * s <= TRIG_ONE * TRIG_ONE + 2 * TRIG_ONE
}

/// Bounded components of near-unit length make an admissible ray direction.
pub proof fn lemma_near_unit_dir(c: int, s: int)
    requires
        near_unit(c, s),
        -TRIG_ONE <= c <= TRIG_ONE,
        -TRIG_ONE <= s <= TRIG_ONE,
    ensures
        dir_ok(c, s),
{
}

impl TrigTable {
    pub open spec fn sin_spec(&self, a: int) -> int {
        self.sin@[angle_index(a)] as int
    }

    pub open spec fn cos_spec(&self, a: int) -> int {
        self.sin@[angle_index(a + ANGLE_UNITS / 4)] as int
    }

    /// Every sampled (cosine, sine) pair has unit length, to within rounding.
    #[verifier::opaque]
    pub open spec fn unit_pairs(&self) -> bool {
        forall|k: int|
            0 <= k < ANGLE_UNITS ==> near_unit(
                self.sin@[angle_index(k + ANGLE_UNITS / 4)] as int,
                #[trigger] self.sin@[k] as int,
            )
    }

    pub open spec fn wf(&self) -> bool {
        &&& self.sin@.len() == ANGLE_UNITS
        &&& self.atan@.len() == ATAN_STEPS + 1
        &&& self.unit_pairs()
        &&& self.sin@[0] == 0
        &&& self.sin@[ANGLE_UNITS / 4] == TRIG_ONE
        &&& forall|k: int| 0 <= k < ANGLE_UNITS ==> -TRIG_ONE <= #[trigger] self.sin@[k] <= TRIG_ONE
        &&& forall|m: int| 0 <= m <= ATAN_STEPS ==> 0 <= #[trigger] self.atan@[m] <= ANGLE_UNITS / 8
    }

    /// The angle of the vector `(x, y)`, in `(-ANGLE_UNITS / 2, ANGLE_UNITS / 2]`, read from
    /// the arctangent table after reducing the vector to the first octant.
    pub open spec fn atan2_spec(&self, y: int, x: int) -> int {
        let ax = abs(x);
        let ay = abs(y);
        let base = if ax == 0 && ay == 0 {
            0
        } else if ay <= ax {
            self.atan@[ay * ATAN_STEPS / ax] as int
        } else {
            ANGLE_UNITS / 4 - self.atan@[ax * ATAN_STEPS / ay]
        };
        if x >= 0 && y >= 0 {
            base
        } else if x < 0 && y >= 0 {
            ANGLE_UNITS / 2 - base
        } else if x < 0 {
            base - ANGLE_UNITS / 2
        } else {
            -base
        }
    }

    /// A table over the given samples, or `None` where they have the wrong lengths, a
    /// (cosine, sine) pair is not of unit length to within rounding, the samples at zero
    /// and a quarter turn are not exactly 0 and one, or an arctangent is out of range.
    pub fn new(sin: Vec<i64>, atan: Vec<i64>) -> (r: Option<TrigTable>)
        ensures
            r is Some <==> (TrigTable { sin, atan }).wf(),
            r matches Some(t) ==> t.sin@ == sin@ && t.atan@ == atan@,
    {
        proof {
            reveal(TrigTable::unit_pairs);
        }
        if sin.len() != ANGLE_UNITS as usize || atan.len() != ATAN_STEPS as usize + 1 {
            return None;
        }
        if sin[0] != 0 || sin[(ANGLE_UNITS / 4) as usize] != TRIG_ONE {
            return None;
        }
        let mut k: usize = 0;
        while k < sin.len()
            invariant
                sin@.len() == ANGLE_UNITS,
                0 <= k <= sin@.len(),
                forall|kk: int| 0 <= kk < k ==> -TRIG_ONE <= #[trigger] sin@[kk] <= TRIG_ONE,
                forall|kk: int|
                    0 <= kk < k ==> near_unit(
                        sin@[angle_index(kk + ANGLE_UNITS / 4)] as int,
                        #[trigger] sin@[kk] as int,
                    ),
            decreases sin.len() - k,
        {
            let ci = floor_mod(k as i64 + ANGLE_UNITS / 4, ANGLE_UNITS);
            let c = sin[ci as usize];
            let s = sin[k];
            if c < -TRIG_ONE || c > TRIG_ONE || s < -TRIG_ONE || s > TRIG_ONE {
                return None;
            }
            assert(0 <= c * c <= 0x1000_0000 && 0 <= s * s <= 0x1000_0000) by (nonlinear_arith)
                requires
                    -16384 <= c <= 16384,
                    -16384 <= s <= 16384,
            {
            }
            let len2 = c * c + s * s;
            if len2 < TRIG_ONE * TRIG_ONE - 2 * TRIG_ONE || len2 > TRIG_ONE * TRIG_ONE + 2 * TRIG_ONE {
                proof {
                    reveal(TrigTable::unit_pairs);
                    assert(!near_unit(sin@[angle_index(k + ANGLE_UNITS / 4)] as int, sin@[k as int] as int));
                }
                return None;
            }
            assert(near_unit(sin@[angle_index(k + ANGLE_UNITS / 4)] as int, sin@[k as int] as int));
            k = k + 1;
        }
        let mut m: usize = 0;
        while m < atan.len()
            invariant
                atan@.len() == ATAN_STEPS + 1,
                0 <= m <= atan@.len(),
                forall|mm: int| 0 <= mm < m ==> 0 <= #[trigger] atan@[mm] <= ANGLE_UNITS / 8,
            decreases atan.len() - m,
        {
            if atan[m] < 0 || atan[m] > ANGLE_UNITS / 8 {
                return None;
            }
            m = m + 1;
        }
        proof {
            reveal(TrigTable::unit_pairs);
        }
        Some(TrigTable { sin, atan })
    }

    pub fn sin_of(&self, a: i64) -> (s: i64)
        requires
            self.wf(),
            a >= i64::MIN + ANGLE_UNITS,
        ensures
            s == self.sin_spec(a as int),
            -TRIG_ONE <= s <= TRIG_ONE,
    {
        let k = floor_mod(a, ANGLE_UNITS);
        self.sin[k as usize]
    }

    pub fn cos_of(&self, a: i64) -> (c: i64)
        requires
            self.wf(),
            i64::MIN + ANGLE_UNITS <= a < i64::MAX - ANGLE_UNITS,
        ensures
            c == self.cos_spec(a as int),
            -TRIG_ONE <= c <= TRIG_ONE,
    {
        self.sin_of(a + ANGLE_UNITS / 4)
    }

    /// The angle of the vector `(x, y)` (zero for the zero vector).
    pub fn atan2(&self, y: i64, x: i64) -> (r: i64)
        requires
            self.wf(),
            -ATAN_INPUT_LIMIT <= x <= ATAN_INPUT_LIMIT,
            -ATAN_INPUT_LIMIT <= y <= ATAN_INPUT_LIMIT,
        ensures
            r == self.atan2_spec(y as int, x as int),
            -ANGLE_UNITS / 2 <= r <= ANGLE_UNITS / 2,
    {
        let ax: i64 = if x < 0 { -x } else { x };
        let ay: i64 = if y < 0 { -y } else { y };
        let base: i64 = if ax == 0 && ay == 0 {
            0
        } else if ay <= ax {
            proof {
                vstd::arithmetic::div_mod::lemma_div_is_ordered(
                    ay * ATAN_STEPS,
                    ax * ATAN_STEPS,
                    ax as int,
                );
                vstd::arithmetic::div_mod::lemma_div_multiples_vanish(ATAN_STEPS as int, ax as int);
                assert(ax * ATAN_STEPS == ATAN_STEPS * ax);
            }
            self.atan[(ay * ATAN_STEPS / ax) as usize]
        } else {
            proof {
                vstd::arithmetic::div_mod::lemma_div_is_ordered(
                    ax * ATAN_STEPS,
                    ay * ATAN_STEPS,
                    ay as int,
                );
                vstd::arithmetic::div_mod::lemma_div_multiples_vanish(ATAN_STEPS as int, ay as int);
                assert(ay * ATAN_STEPS == ATAN_STEPS * ay);
            }
            ANGLE_UNITS / 4 - self.atan[(ax * ATAN_STEPS / ay) as usize]
        };
        if x >= 0 && y >= 0 {
            base
        } else if x < 0 && y >= 0 {
            ANGLE_UNITS / 2 - base
        } else if x < 0 {
            base - ANGLE_UNITS / 2
        } else {
            -base
        }
    }
}

/// Brings an angle into `(-ANGLE_UNITS / 2, ANGLE_UNITS / 2]`.
pub fn normalize_angle(a: i64) -> (r: i64)
    requires
        a >= i64::MIN + ANGLE_UNITS,
    ensures
        r == normalize_spec(a as int),
        -ANGLE_UNITS / 2 < r <= ANGLE_UNITS / 2,
{
    let k = floor_mod(a, ANGLE_UNITS);
    if k > ANGLE_UNITS / 2 {
        k - ANGLE_UNITS
    } else {
        k
    }
}

} // verus!
