//! The portable random number generator of Duan's SCE-UA code: three linear
//! congruential generators feeding a shuffle table of 97 entries.
//!
//! A draw is handed out as the pair of generator states it was built from;
//! the uniform value it denotes is
//! `(coarse + fine * 7.4373773e-6) * 3.8580247e-6`, which a caller working
//! with floating point computes from the pair.
use vstd::prelude::*;

verus! {

/// Modulus, multiplier and increment of the coarse generator.
pub const M1: u64 = 259200;
pub const IA1: u64 = 7141;
pub const IC1: u64 = 54773;
/// Modulus, multiplier and increment of the fine generator.
pub const M2: u64 = 134456;
pub const IA2: u64 = 8121;
pub const IC2: u64 = 28411;
/// Modulus, multiplier and increment of the generator that picks table slots.
pub const M3: u64 = 243000;
pub const IA3: u64 = 4561;
pub const IC3: u64 = 51349;
/// Number of entries in the shuffle table.
pub const TABLE_LEN: usize = 97;

/// One value of the generator: the states of the coarse and the fine
/// generator at the time the value was put into the shuffle table.
#[derive(Clone, Copy, Debug, PartialEq, Eq)]
pub struct UniformDraw {
    pub coarse: u64,
    pub fine: u64,
}

/// The mathematical state of the generator.
pub struct RngModel {
    pub ix1: nat,
    pub ix2: nat,
    pub ix3: nat,
    pub table: Seq<UniformDraw>,
}

/// One step of the linear congruential generator `x -> (a * x + c) mod m`.
pub open spec fn lcg(a: nat, c: nat, m: nat, x: nat) -> nat {
    (a * x + c) % m
}

/// `count` steps of the linear congruential generator from `x`.
pub open spec fn lcg_iter(a: nat, c: nat, m: nat, x: nat, count: nat) -> nat
    decreases count,
{
    if count == 0 {
        x
    } else {
        lcg(a, c, m, lcg_iter(a, c, m, x, (count - 1) as nat))
    }
}

pub open spec fn step1(x: nat) -> nat {
    lcg(IA1 as nat, IC1 as nat, M1 as nat, x)
}

pub open spec fn step2(x: nat) -> nat {
    lcg(IA2 as nat, IC2 as nat, M2 as nat, x)
}

pub open spec fn step3(x: nat) -> nat {
    lcg(IA3 as nat, IC3 as nat, M3 as nat, x)
}

/// The coarse state right after seeding, before the table is filled.
pub open spec fn seed_ix1(seed: nat) -> nat {
    step1(step1((IC1 as nat + seed) % (M1 as nat)))
}

/// The fine state right after seeding, before the table is filled.
pub open spec fn seed_ix2(seed: nat) -> nat {
    step1((IC1 as nat + seed) % (M1 as nat)) % (M2 as nat)
}

/// The slot-picking state right after seeding.
pub open spec fn seed_ix3(seed: nat) -> nat {
    seed_ix1(seed) % (M3 as nat)
}

#[verifier::opaque]
/// The generator seeded with `seed` (the Fortran code seeds with `-seed`):
/// table entry `j` holds the coarse and fine states after `j + 1` further
/// steps of both generators.
pub open spec fn seed_state(seed: nat) -> RngModel {
    RngModel {
        ix1: lcg_iter(IA1 as nat, IC1 as nat, M1 as nat, seed_ix1(seed), TABLE_LEN as nat),
        ix2: lcg_iter(IA2 as nat, IC2 as nat, M2 as nat, seed_ix2(seed), TABLE_LEN as nat),
        ix3: seed_ix3(seed),
        table: Seq::new(
            TABLE_LEN as nat,
            |j: int|
                UniformDraw {
                    coarse: lcg_iter(IA1 as nat, IC1 as nat, M1 as nat, seed_ix1(seed), (j + 1) as nat) as u64,
                    fine: lcg_iter(IA2 as nat, IC2 as nat, M2 as nat, seed_ix2(seed), (j + 1) as nat) as u64,
                },
        ),
    }
}

/// The table slot that the slot-picking state `ix3` selects.
pub open spec fn slot_of(ix3: nat) -> int {
    (97 * ix3) as int / (M3 as int)
}

#[verifier::opaque]
/// One draw: all three generators step, the slot chosen by the third one is
/// handed out and refilled with the new coarse and fine states.
pub open spec fn next_state(s: RngModel) -> (UniformDraw, RngModel) {
    let ix1 = step1(s.ix1);
    let ix2 = step2(s.ix2);
    let ix3 = step3(s.ix3);
    let j = slot_of(ix3);
    (
        s.table[j],
        RngModel {
            ix1,
            ix2,
            ix3,
            table: s.table.update(j, UniformDraw { coarse: ix1 as u64, fine: ix2 as u64 }),
        },
    )
}

/// One draw steps each of the three generators once, hands out the entry of
/// the slot that the new slot-picking state selects, and refills that slot
/// with the coarse and fine states of this same draw; every other slot keeps
/// its entry.
pub proof fn lemma_draw_refills_its_slot(s: RngModel)
    requires
        model_wf(s),
    ensures
        ({
            let (d, t) = next_state(s);
            let ix3 = (4561 * s.ix3 + 51349) % 243000;
            let j = (97 * ix3) as int / 243000;
            &&& t.ix1 == (7141 * s.ix1 + 54773) % 259200
            &&& t.ix2 == (8121 * s.ix2 + 28411) % 134456
            &&& t.ix3 == ix3
            &&& 0 <= j < 97
            &&& d == s.table[j]
            &&& t.table.len() == 97
            &&& t.table[j] == (UniformDraw { coarse: t.ix1 as u64, fine: t.ix2 as u64 })
            &&& forall|k: int| 0 <= k < 97 && k != j ==> t.table[k] == s.table[k]
            &&& model_wf(t)
        }),
{
    reveal(next_state);
    let ix3 = (4561 * s.ix3 + 51349) % 243000;
    assert(0 <= (97 * ix3) as int / 243000 < 97) by (nonlinear_arith)
        requires 0 <= ix3 < 243000;
}

/// Seeding with `seed` starts the coarse generator at `(54773 + seed) mod
/// 259200` and steps it twice, taking the fine generator's start from the
/// first step and the slot-picking state from the second; the table then
/// holds, slot after slot, the coarse and fine states of successive steps of
/// both generators, and the generators stand at the states of the last slot.
pub proof fn lemma_seed_state(seed: nat)
    ensures
        ({
            let s = seed_state(seed);
            let x0 = (54773 + seed) % 259200;
            let x1 = (7141 * x0 + 54773) % 259200;
            let x2 = (7141 * x1 + 54773) % 259200;
            let f0 = x1 % 134456;
            &&& s.ix3 == x2 % 243000
            &&& s.table.len() == 97
            &&& s.table[0] == (UniformDraw {
                coarse: ((7141 * x2 + 54773) % 259200) as u64,
                fine: ((8121 * f0 + 28411) % 134456) as u64,
            })
            &&& forall|j: int|
                #![trigger s.table[j], s.table[j + 1]]
                0 <= j < 96 ==> s.table[j + 1].coarse == (7141 * s.table[j].coarse + 54773)
                    % 259200 && s.table[j + 1].fine == (8121 * s.table[j].fine + 28411) % 134456
            &&& s.ix1 == s.table[96].coarse
            &&& s.ix2 == s.table[96].fine
            &&& model_wf(s)
        }),
{
    let s = seed_state(seed);
    assert forall|j: int|
        #![trigger s.table[j], s.table[j + 1]]
        0 <= j < 96 implies s.table[j + 1].coarse == (7141
        * s.table[j].coarse + 54773) % 259200 && s.table[j + 1].fine == (8121 * s.table[j].fine
        + 28411) % 134456 by {
        lemma_seed_entry(seed, j);
        lemma_seed_entry(seed, j + 1);
        lemma_lcg_iter_next(IA1 as nat, IC1 as nat, M1 as nat, seed_ix1(seed), (j + 1) as nat);
        lemma_lcg_iter_next(IA2 as nat, IC2 as nat, M2 as nat, seed_ix2(seed), (j + 1) as nat);
    }
    let a = seed_ix1(seed);
    let b = seed_ix2(seed);
    lemma_seed_entry(seed, 0);
    lemma_seed_entry(seed, 96);
    lemma_lcg_iter_next(IA1 as nat, IC1 as nat, M1 as nat, a, 0);
    lemma_lcg_iter_next(IA2 as nat, IC2 as nat, M2 as nat, b, 0);
    let x0 = (54773 + seed) % 259200;
    let x1 = (7141 * x0 + 54773) % 259200;
    let x2 = (7141 * x1 + 54773) % 259200;
    assert(a == x2);
    assert(b == x1 % 134456);
    assert(lcg_iter(IA1 as nat, IC1 as nat, M1 as nat, a, 0) == a);
    assert(lcg_iter(IA2 as nat, IC2 as nat, M2 as nat, b, 0) == b);
    assert forall|j: int| 0 <= j < TABLE_LEN implies draw_wf(#[trigger] s.table[j]) by {
        lemma_seed_entry(seed, j);
    }
}

/// Entry `j` of a freshly seeded table, and the states that follow it.
proof fn lemma_seed_entry(seed: nat, j: int)
    requires
        0 <= j < 97,
    ensures
        ({
            let s = seed_state(seed);
            let a = seed_ix1(seed);
            let b = seed_ix2(seed);
            &&& s.table.len() == 97
            &&& s.ix3 == seed_ix3(seed)
            &&& s.table[j].coarse == lcg_iter(IA1 as nat, IC1 as nat, M1 as nat, a, (j + 1) as nat)
            &&& s.table[j].fine == lcg_iter(IA2 as nat, IC2 as nat, M2 as nat, b, (j + 1) as nat)
            &&& s.table[j].coarse < M1
            &&& s.table[j].fine < M2
            &&& j == 96 ==> s.ix1 == lcg_iter(IA1 as nat, IC1 as nat, M1 as nat, a, 97)
                && s.ix2 == lcg_iter(IA2 as nat, IC2 as nat, M2 as nat, b, 97)
        }),
{
    reveal(seed_state);
    let a = seed_ix1(seed);
    let b = seed_ix2(seed);
    lemma_lcg_iter_next(IA1 as nat, IC1 as nat, M1 as nat, a, j as nat);
    lemma_lcg_iter_next(IA2 as nat, IC2 as nat, M2 as nat, b, j as nat);
}

/// One more step of a linear congruential generator lands below the modulus.
proof fn lemma_lcg_iter_next(a: nat, c: nat, m: nat, x: nat, count: nat)
    requires
        m > 0,
    ensures
        lcg_iter(a, c, m, x, count + 1) == (a * lcg_iter(a, c, m, x, count) + c) % m,
        lcg_iter(a, c, m, x, count + 1) < m,
{
}

/// The state after `count` draws.
#[verifier::opaque]
pub open spec fn advance(s: RngModel, count: nat) -> RngModel
    decreases count,
{
    if count == 0 {
        s
    } else {
        next_state(advance(s, (count - 1) as nat)).1
    }
}

/// One more draw after `count` draws.
pub proof fn lemma_advance_step(s: RngModel, count: nat)
    ensures
        advance(s, count + 1) == next_state(advance(s, count)).1,
        draw_at(s, count) == next_state(advance(s, count)).0,
        advance(s, 0) == s,
{
    reveal(advance);
}

/// Draw number `i` (counted from zero) from state `s`.
pub open spec fn draw_at(s: RngModel, i: nat) -> UniformDraw {
    next_state(advance(s, i)).0
}

/// A draw whose generator states lie below their moduli.
pub open spec fn draw_wf(d: UniformDraw) -> bool {
    d.coarse < M1 && d.fine < M2
}

pub open spec fn model_wf(s: RngModel) -> bool {
    &&& s.ix1 < M1
    &&& s.ix2 < M2
    &&& s.ix3 < M3
    &&& s.table.len() == TABLE_LEN
    &&& forall|j: int| 0 <= j < TABLE_LEN ==> draw_wf(#[trigger] s.table[j])
}

/// The generator of Duan's SCE-UA code.
pub struct DuanRng {
    ix1: u64,
    ix2: u64,
    ix3: u64,
    table: Vec<UniformDraw>,
}

impl DuanRng {
    pub closed spec fn view(&self) -> RngModel {
        RngModel { ix1: self.ix1 as nat, ix2: self.ix2 as nat, ix3: self.ix3 as nat, table: self.table@ }
    }

    /// The generator's states lie below their moduli and the table is full.
    pub open spec fn wf(&self) -> bool {
        model_wf(self.view())
    }

    /// Seeds the generator.
    pub fn new(seed: u64) -> (rng: DuanRng)
        ensures
            rng.view() == seed_state(seed as nat),
            rng.wf(),
    {
        let start = (IC1 + seed % M1) % M1;
        assert(start == (IC1 as nat + seed as nat) % (M1 as nat)) by {
            vstd::arithmetic::div_mod::lemma_add_mod_noop(IC1 as int, seed as int, M1 as int);
            vstd::arithmetic::div_mod::lemma_small_mod(IC1 as nat, M1 as nat);
        }
        let first = (IA1 * start + IC1) % M1;
        let ix2_start = first % M2;
        let ix1_start = (IA1 * first + IC1) % M1;
        let ix3 = ix1_start % M3;
        let mut ix1 = ix1_start;
        let mut ix2 = ix2_start;
        let mut table: Vec<UniformDraw> = Vec::new();
        let mut j: usize = 0;
        while j < TABLE_LEN
            invariant
                j <= TABLE_LEN,
                ix1_start == seed_ix1(seed as nat),
                ix2_start == seed_ix2(seed as nat),
                ix1 == lcg_iter(IA1 as nat, IC1 as nat, M1 as nat, ix1_start as nat, j as nat),
                ix2 == lcg_iter(IA2 as nat, IC2 as nat, M2 as nat, ix2_start as nat, j as nat),
                ix1 < M1,
                ix2 < M2,
                table@.len() == j,
                forall|i: int|
                    0 <= i < j ==> #[trigger] table@[i] == (UniformDraw {
                        coarse: lcg_iter(IA1 as nat, IC1 as nat, M1 as nat, ix1_start as nat, (i + 1) as nat) as u64,
                        fine: lcg_iter(IA2 as nat, IC2 as nat, M2 as nat, ix2_start as nat, (i + 1) as nat) as u64,
                    }),
                forall|i: int| 0 <= i < j ==> draw_wf(#[trigger] table@[i]),
            decreases TABLE_LEN - j,
        {
            ix1 = (IA1 * ix1 + IC1) % M1;
            ix2 = (IA2 * ix2 + IC2) % M2;
            table.push(UniformDraw { coarse: ix1, fine: ix2 });
            j = j + 1;
        }
        let rng = DuanRng { ix1, ix2, ix3, table };
        proof {
            reveal(seed_state);
        }
        assert(rng.view().table =~= seed_state(seed as nat).table);
        rng
    }

    /// Takes the next draw from the shuffle table.
    pub fn next_draw(&mut self) -> (draw: UniformDraw)
        requires
            old(self).wf(),
        ensures
            final(self).wf(),
            (draw, final(self).view()) == next_state(old(self).view()),
            draw_wf(draw),
    {
        proof {
            reveal(next_state);
        }
        let ix1 = (IA1 * self.ix1 + IC1) % M1;
        let ix2 = (IA2 * self.ix2 + IC2) % M2;
        let ix3 = (IA3 * self.ix3 + IC3) % M3;
        let j = ((97 * ix3) / M3) as usize;
        assert(j < TABLE_LEN) by (nonlinear_arith)
            requires j == (97 * ix3) as int / 243000int, ix3 < 243000;
        let draw = self.table[j];
        self.table.set(j, UniformDraw { coarse: ix1, fine: ix2 });
        self.ix1 = ix1;
        self.ix2 = ix2;
        self.ix3 = ix3;
        draw
    }
}

} // verus!
