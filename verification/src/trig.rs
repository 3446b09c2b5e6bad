use vstd::prelude::*;
use crate::player::Point;

verus! {

/// The fixed-point value of one: a cosine of `ONE` stands for 1.0.
pub const ONE: i32 = 0x1_0000;

/// The most steps that a full turn may be divided into.
pub const MAX_TURN: usize = 0x4000_0000;

/// `cos` and `sin` tabulate a full turn: equally long, not empty, every
/// entry within `[-ONE, ONE]`, and no angle whose cosine and sine both vanish.
pub open spec fn tabulates_turn(cos: Seq<i32>, sin: Seq<i32>) -> bool {
    &&& cos.len() == sin.len()
    &&& 0 < cos.len() <= MAX_TURN
    &&& forall|a: int| 0 <= a < cos.len() ==> -ONE <= #[trigger] cos[a] <= ONE
    &&& forall|a: int| 0 <= a < sin.len() ==> -ONE <= #[trigger] sin[a] <= ONE
    &&& forall|a: int| 0 <= a < cos.len() ==> (#[trigger] cos[a] != 0 || sin[a] != 0)
}

/// Cosine and sine of every angle of a full turn, in fixed point. Angles are
/// counted in steps of which `len()` make a full turn, and wrap around.
pub struct TrigTable {
    cos: Vec<i32>,
    sin: Vec<i32>,
}

impl TrigTable {
    /// The two tables tabulate a turn.
    #[verifier::type_invariant]
    pub closed spec fn wf(self) -> bool {
        tabulates_turn(self.cos@, self.sin@)
    }

    /// The tabulated cosines, one for each step of the turn.
    pub closed spec fn cos_values(self) -> Seq<i32> {
        self.cos@
    }

    /// The tabulated sines, one for each step of the turn.
    pub closed spec fn sin_values(self) -> Seq<i32> {
        self.sin@
    }

    /// The number of steps in a full turn.
    pub open spec fn turn(self) -> int {
        self.cos_values().len() as int
    }

    /// The angle within `[0, turn)` that `a` wraps to.
    pub open spec fn wrap(self, a: int) -> int {
        a % self.turn()
    }

    /// The cosine of angle `a`, scaled by [`ONE`].
    pub open spec fn cos_of(self, a: int) -> int {
        self.cos_values()[self.wrap(a)] as int
    }

    /// The sine of angle `a`, scaled by [`ONE`].
    pub open spec fn sin_of(self, a: int) -> int {
        self.sin_values()[self.wrap(a)] as int
    }

    /// How far the offset `(dx, dy)` reaches in the direction of angle `a`,
    /// scaled by [`ONE`].
    pub open spec fn reach(self, a: int, dx: int, dy: int) -> int {
        self.cos_of(a) * dx + self.sin_of(a) * dy
    }

    /// How far the offset `(dx, dy)` lies to the side of the direction of
    /// angle `a`, to either side, scaled by [`ONE`].
    pub open spec fn beside(self, a: int, dx: int, dy: int) -> int {
        let cross = self.cos_of(a) * dy - self.sin_of(a) * dx;
        if cross < 0 {
            -cross
        } else {
            cross
        }
    }

    /// The direction of angle `a` points at the offset `(dx, dy)` more
    /// closely than that of angle `b`: the offset lies ahead of `a` and
    /// behind `b`, or on the same side of both and less far beside `a`.
    pub open spec fn closer(self, a: int, b: int, dx: int, dy: int) -> bool {
        let ahead_a = self.reach(a, dx, dy) >= 0;
        let ahead_b = self.reach(b, dx, dy) >= 0;
        (ahead_a && !ahead_b) || (ahead_a == ahead_b && self.beside(a, dx, dy) < self.beside(
            b,
            dx,
            dy,
        ))
    }

    /// `r` is the angle under which the offset `(dx, dy)` is seen: the
    /// first angle of the turn whose direction points at the offset as
    /// closely as any.
    pub open spec fn is_bearing(self, dx: int, dy: int, r: int) -> bool {
        &&& 0 <= r < self.turn()
        &&& forall|a: int| 0 <= a < self.turn() ==> !#[trigger] self.closer(a, r, dx, dy)
        &&& forall|a: int| 0 <= a < r ==> #[trigger] self.closer(r, a, dx, dy)
    }

    /// The angle under which the offset `(dx, dy)` is seen.
    pub open spec fn bearing_of(self, dx: int, dy: int) -> int {
        choose|r: int| self.is_bearing(dx, dy, r)
    }

    /// An offset is seen under one angle.
    pub proof fn lemma_bearing_unique(self, dx: int, dy: int, r: int, s: int)
        requires
            self.is_bearing(dx, dy, r),
            self.is_bearing(dx, dy, s),
        ensures
            r == s,
    {
        if r < s {
            assert(self.closer(s, r, dx, dy));
        }
        if s < r {
            assert(self.closer(r, s, dx, dy));
        }
    }

    /// Takes the two tables if they tabulate a turn.
    pub fn new(cos: Vec<i32>, sin: Vec<i32>) -> (table: Option<TrigTable>)
        ensures
            table.is_some() == tabulates_turn(cos@, sin@),
            table.is_some() ==> table.unwrap().cos_values() == cos@ && table.unwrap().sin_values()
                == sin@ && table.unwrap().wf(),
    {
        let n = cos.len();
        if n != sin.len() || n == 0 || n > MAX_TURN {
            return None;
        }
        let mut a: usize = 0;
        while a < n
            invariant
                a <= n,
                n == cos@.len(),
                n == sin@.len(),
                forall|k: int| 0 <= k < a ==> -ONE <= #[trigger] cos@[k] <= ONE,
                forall|k: int| 0 <= k < a ==> -ONE <= #[trigger] sin@[k] <= ONE,
                forall|k: int| 0 <= k < a ==> (#[trigger] cos@[k] != 0 || sin@[k] != 0),
            decreases n - a,
        {
            let c = cos[a];
            let s = sin[a];
            if c < -ONE || c > ONE || s < -ONE || s > ONE || (c == 0 && s == 0) {
                assert(!tabulates_turn(cos@, sin@)) by {
                    let k = a as int;
                    assert(cos@[k] == c && sin@[k] == s);
                }
                return None;
            }
            a += 1;
        }
        Some(TrigTable { cos, sin })
    }

    /// The number of steps in a full turn.
    pub fn len(&self) -> (n: usize)
        ensures
            n == self.turn(),
            0 < n <= MAX_TURN,
    {
        proof {
            use_type_invariant(self);
        }
        self.cos.len()
    }

    /// The angle within `[0, len())` that `a` wraps to.
    pub fn wrap_angle(&self, a: i64) -> (w: u32)
        ensures
            w == self.wrap(a as int),
            w < self.turn(),
            self.cos_of(w as int) == self.cos_of(a as int),
            self.sin_of(w as int) == self.sin_of(a as int),
    {
        proof {
            use_type_invariant(self);
            vstd::arithmetic::div_mod::lemma_mod_twice(a as int, self.turn());
        }
        crate::arith::wrap(a, self.cos.len() as u32)
    }

    /// The cosine of angle `a`, scaled by [`ONE`].
    pub fn cos(&self, a: u32) -> (c: i32)
        ensures
            c == self.cos_of(a as int),
            -ONE <= c <= ONE,
    {
        proof {
            use_type_invariant(self);
        }
        let n = self.cos.len() as u32;
        self.cos[(a % n) as usize]
    }

    /// The sine of angle `a`, scaled by [`ONE`].
    pub fn sin(&self, a: u32) -> (s: i32)
        ensures
            s == self.sin_of(a as int),
            -ONE <= s <= ONE,
    {
        proof {
            use_type_invariant(self);
        }
        let n = self.sin.len() as u32;
        self.sin[(a % n) as usize]
    }

    /// The angle under which `to` is seen from `from`: the table's answer
    /// to the question that an arc tangent answers.
    pub fn bearing(&self, from: Point, to: Point) -> (r: u32)
        ensures
            self.is_bearing(to.x - from.x, to.y - from.y, r as int),
            r == self.bearing_of(to.x - from.x, to.y - from.y),
    {
        proof {
            use_type_invariant(self);
        }
        let dx: i64 = to.x as i64 - from.x as i64;
        let dy: i64 = to.y as i64 - from.y as i64;
        let n = self.cos.len();
        let mut best: usize = 0;
        let (mut best_ahead, mut best_beside) = self.aim_at(0, dx, dy);
        let mut a: usize = 1;
        while a < n
            invariant
                1 <= a <= n,
                n == self.cos@.len(),
                self.wf(),
                -0xffff_ffff <= dx <= 0xffff_ffff,
                -0xffff_ffff <= dy <= 0xffff_ffff,
                best < a,
                best_ahead == (self.reach(best as int, dx as int, dy as int) >= 0),
                best_beside == self.beside(best as int, dx as int, dy as int),
                forall|k: int|
                    0 <= k < a ==> !#[trigger] self.closer(k, best as int, dx as int, dy as int),
                forall|k: int|
                    0 <= k < best ==> #[trigger] self.closer(best as int, k, dx as int, dy as int),
            decreases n - a,
        {
            let (ahead, beside) = self.aim_at(a, dx, dy);
            if (ahead && !best_ahead) || (ahead == best_ahead && beside < best_beside) {
                assert(self.closer(a as int, best as int, dx as int, dy as int));
                assert forall|k: int| 0 <= k < a + 1 implies !#[trigger] self.closer(
                    k,
                    a as int,
                    dx as int,
                    dy as int,
                ) by {
                    if k < a {
                        assert(!self.closer(k, best as int, dx as int, dy as int));
                    }
                }
                assert forall|k: int| 0 <= k < a implies #[trigger] self.closer(
                    a as int,
                    k,
                    dx as int,
                    dy as int,
                ) by {
                    assert(!self.closer(k, best as int, dx as int, dy as int));
                }
                best = a;
                best_ahead = ahead;
                best_beside = beside;
            } else {
                assert(!self.closer(a as int, best as int, dx as int, dy as int));
            }
            a += 1;
        }
        proof {
            let r = best as int;
            assert(self.is_bearing(dx as int, dy as int, r));
            self.lemma_bearing_unique(dx as int, dy as int, r, self.bearing_of(dx as int, dy as int));
        }
        best as u32
    }

    /// Whether the offset lies ahead of the direction of angle `a`, and
    /// how far beside it.
    fn aim_at(&self, a: usize, dx: i64, dy: i64) -> (r: (bool, i64))
        requires
            self.wf(),
            a < self.turn(),
            -0xffff_ffff <= dx <= 0xffff_ffff,
            -0xffff_ffff <= dy <= 0xffff_ffff,
        ensures
            r.0 == (self.reach(a as int, dx as int, dy as int) >= 0),
            r.1 == self.beside(a as int, dx as int, dy as int),
    {
        let c = self.cos[a] as i64;
        let s = self.sin[a] as i64;
        proof {
            vstd::arithmetic::div_mod::lemma_small_mod(a as nat, self.turn() as nat);
            lemma_product_bound(c as int, dx as int);
            lemma_product_bound(s as int, dy as int);
            lemma_product_bound(c as int, dy as int);
            lemma_product_bound(s as int, dx as int);
        }
        let ahead = c * dx + s * dy >= 0;
        let cross = c * dy - s * dx;
        let beside = if cross < 0 {
            -cross
        } else {
            cross
        };
        (ahead, beside)
    }

    /// No angle has a direction without length.
    pub proof fn lemma_direction_nonzero(self, a: int)
        requires
            self.wf(),
        ensures
            self.cos_of(a) != 0 || self.sin_of(a) != 0,
            -ONE <= self.cos_of(a) <= ONE,
            -ONE <= self.sin_of(a) <= ONE,
    {
        let w = self.wrap(a);
        assert(0 <= w < self.turn());
        assert(self.cos@[w] != 0 || self.sin@[w] != 0);
    }
}

proof fn lemma_product_bound(c: int, d: int)
    requires
        -0x1_0000 <= c <= 0x1_0000,
        -0xffff_ffff <= d <= 0xffff_ffff,
    ensures
        -0x1_0000 * 0xffff_ffff <= c * d <= 0x1_0000 * 0xffff_ffff,
{
    assert(-0x1_0000 * 0xffff_ffff <= c * d <= 0x1_0000 * 0xffff_ffff) by (nonlinear_arith)
        requires
            -0x1_0000 <= c <= 0x1_0000,
            -0xffff_ffff <= d <= 0xffff_ffff,
    ;
}

} // verus!
