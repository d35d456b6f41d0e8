//! The interaction matrix: its validation and its random generation.

use rand::rngs::SmallRng;
use rand::{Rng, SeedableRng};
use vstd::prelude::*;

use crate::geometry::UNIT;

verus! {

/// Coefficients are drawn from `[-COEFF_RANGE, COEFF_RANGE)`.
pub const COEFF_RANGE: i64 = 500 * UNIT;

#[verifier::external_type_specification]
#[verifier::external_body]
pub struct ExSmallRng(SmallRng);

/// Relies on `rand::Rng::gen_range` over a half-open range: the value drawn
/// lies in `[low, high)`; an empty range panics.
#[verifier::external_body]
pub(crate) fn random_in_range(rng: &mut SmallRng, low: i64, high: i64) -> (r: i64)
    requires
        low < high,
    ensures
        low <= r < high,
{
    rng.gen_range(low..high)
}

/// Relies on `rand::SeedableRng::from_seed` for `SmallRng`, with the 32 bytes
/// of `seed`.
#[verifier::external_body]
fn small_rng_from_seed(seed: &Vec<u8>) -> (r: SmallRng)
    requires
        seed@.len() == 32,
{
    let mut bytes = [0u8; 32];
    bytes.copy_from_slice(seed.as_slice());
    SmallRng::from_seed(bytes)
}

/// One row of the matrix: the coefficients, one per type, of the force that a
/// particle of this row's type exerts.
pub struct Interaction {
    pub force_coeffs: Vec<i64>,
}

/// The interaction matrix, a list of rows.
pub struct ParticleSpec {
    pub interactions: Vec<Interaction>,
}

/// A row whose length is not the number of rows.
#[derive(Clone, Copy, Debug, PartialEq, Eq, Structural)]
pub struct MalformedInteractionError {
    pub total_interactions: usize,
    pub total_coeffs: usize,
}

/// The decimal digits of `n`, as ASCII bytes.
pub open spec fn decimal(n: nat) -> Seq<u8>
    decreases n,
{
    if n < 10 {
        seq![(48 + n) as u8]
    } else {
        decimal(n / 10).push((48 + n % 10) as u8)
    }
}

/// `expected {rows} coefficients, got {length}`, as ASCII bytes.
pub open spec fn message_text(e: MalformedInteractionError) -> Seq<u8> {
    seq![101u8, 120, 112, 101, 99, 116, 101, 100, 32] + decimal(e.total_interactions as nat) + seq![
        32u8,
        99,
        111,
        101,
        102,
        102,
        105,
        99,
        105,
        101,
        110,
        116,
        115,
        44,
        32,
        103,
        111,
        116,
        32,
    ] + decimal(e.total_coeffs as nat)
}

pub open spec fn is_ascii(b: Seq<u8>) -> bool {
    forall|i: int| 0 <= i < b.len() ==> #[trigger] b[i] < 128
}

proof fn lemma_decimal_ascii(n: nat)
    ensures
        is_ascii(decimal(n)),
    decreases n,
{
    if n >= 10 {
        lemma_decimal_ascii(n / 10);
    }
}

fn push_decimal(out: &mut Vec<u8>, n: usize)
    ensures
        final(out)@ == old(out)@ + decimal(n as nat),
    decreases n,
{
    if n >= 10 {
        push_decimal(out, n / 10);
    }
    out.push((48 + n % 10) as u8);
    proof {
        if n >= 10 {
            assert(old(out)@ + decimal(n as nat) =~= old(out)@ + decimal((n / 10) as nat) + seq![
                (48 + n % 10) as u8,
            ]);
        } else {
            assert(old(out)@ + decimal(n as nat) =~= old(out)@.push((48 + n % 10) as u8));
        }
    }
}

fn push_bytes(out: &mut Vec<u8>, bytes: &Vec<u8>)
    ensures
        final(out)@ == old(out)@ + bytes@,
{
    let mut i: usize = 0;
    while i < bytes.len()
        invariant
            i <= bytes@.len(),
            out@ == old(out)@ + bytes@.take(i as int),
        decreases bytes.len() - i,
    {
        out.push(bytes[i]);
        assert(bytes@.take(i + 1) =~= bytes@.take(i as int).push(bytes@[i as int]));
        assert(old(out)@ + bytes@.take(i + 1) =~= old(out)@ + bytes@.take(i as int) + seq![
            bytes@[i as int],
        ]);
        i = i + 1;
    }
    assert(bytes@.take(bytes@.len() as int) =~= bytes@);
}

/// Relies on `String::from_utf8`: ASCII bytes are valid UTF-8, one character
/// per byte.
#[verifier::external_body]
fn ascii_string(bytes: Vec<u8>) -> (r: String)
    requires
        is_ascii(bytes@),
    ensures
        r@ == bytes@.map_values(|b: u8| b as char),
{
    String::from_utf8(bytes).unwrap()
}

impl MalformedInteractionError {
    /// The message text as ASCII bytes.
    fn message_bytes(&self) -> (r: Vec<u8>)
        ensures
            r@ == message_text(*self),
    {
        let mut out: Vec<u8> = vec![101u8, 120, 112, 101, 99, 116, 101, 100, 32];
        push_decimal(&mut out, self.total_interactions);
        let middle: Vec<u8> = vec![
            32u8,
            99,
            111,
            101,
            102,
            102,
            105,
            99,
            105,
            101,
            110,
            116,
            115,
            44,
            32,
            103,
            111,
            116,
            32,
        ];
        push_bytes(&mut out, &middle);
        push_decimal(&mut out, self.total_coeffs);
        out
    }

    /// `expected {rows} coefficients, got {length}`.
    pub fn message(&self) -> (r: String)
        ensures
            r@ == message_text(*self).map_values(|b: u8| b as char),
    {
        let bytes = self.message_bytes();
        proof {
            lemma_decimal_ascii(self.total_interactions as nat);
            lemma_decimal_ascii(self.total_coeffs as nat);
            let t = message_text(*self);
            assert forall|i: int| 0 <= i < t.len() implies #[trigger] t[i] < 128 by {
                let a = seq![101u8, 120, 112, 101, 99, 116, 101, 100, 32];
                let d1 = decimal(self.total_interactions as nat);
                let b = seq![
                    32u8,
                    99,
                    111,
                    101,
                    102,
                    102,
                    105,
                    99,
                    105,
                    101,
                    110,
                    116,
                    115,
                    44,
                    32,
                    103,
                    111,
                    116,
                    32,
                ];
                let d2 = decimal(self.total_coeffs as nat);
                if i < a.len() {
                } else if i < a.len() + d1.len() {
                    assert(t[i] == d1[i - a.len()]);
                } else if i < a.len() + d1.len() + b.len() {
                    assert(t[i] == b[i - a.len() - d1.len()]);
                } else {
                    assert(t[i] == d2[i - a.len() - d1.len() - b.len()]);
                }
            }
        }
        ascii_string(bytes)
    }
}

pub open spec fn rows_view(rows: Seq<Interaction>) -> Seq<Seq<i64>> {
    rows.map_values(|r: Interaction| r.force_coeffs@)
}

/// Every row of `m` has one coefficient per row.
pub open spec fn is_square(m: Seq<Seq<i64>>) -> bool {
    forall|i: int| 0 <= i < m.len() ==> #[trigger] m[i].len() == m.len()
}

impl ParticleSpec {
    pub open spec fn matrix(&self) -> Seq<Seq<i64>> {
        rows_view(self.interactions@)
    }

    pub open spec fn wf(&self) -> bool {
        is_square(self.matrix())
    }

    /// The number of interaction types.
    pub fn type_count(&self) -> (r: usize)
        ensures
            r == self.matrix().len(),
    {
        self.interactions.len()
    }

    /// The coefficient in row `i`, column `j`.
    pub fn coeff(&self, i: usize, j: usize) -> (r: i64)
        requires
            self.wf(),
            i < self.matrix().len(),
            j < self.matrix().len(),
        ensures
            r == self.matrix()[i as int][j as int],
    {
        assert(self.matrix()[i as int].len() == self.matrix().len());
        self.interactions[i].force_coeffs[j]
    }
}

/// Checks that `interaction` holds `total_interactions` coefficients.
pub fn validate_single_interaction(interaction: &Interaction, total_interactions: usize) -> (r:
    Result<(), MalformedInteractionError>)
    ensures
        r is Ok <==> interaction.force_coeffs@.len() == total_interactions,
        r matches Err(e) ==> e.total_interactions == total_interactions && e.total_coeffs
            == interaction.force_coeffs@.len(),
{
    let total_coeffs = interaction.force_coeffs.len();
    if total_coeffs == total_interactions {
        Ok(())
    } else {
        Err(MalformedInteractionError { total_interactions, total_coeffs })
    }
}

/// Accepts a list of rows as a matrix when every row is as long as the list;
/// otherwise reports the first row that is not.
pub fn validate_interaction_list(interactions: Vec<Interaction>) -> (r: Result<
    ParticleSpec,
    MalformedInteractionError,
>)
    ensures
        r is Ok <==> is_square(rows_view(interactions@)),
        r matches Ok(spec) ==> spec.matrix() == rows_view(interactions@),
        r matches Err(e) ==> {
            &&& e.total_interactions == interactions@.len()
            &&& exists|k: int|
                0 <= k < interactions@.len() && e.total_coeffs == interactions@[k].force_coeffs@.len()
                    && e.total_coeffs != interactions@.len() && forall|j: int|
                    0 <= j < k ==> #[trigger] interactions@[j].force_coeffs@.len()
                        == interactions@.len()
        },
{
    let total_interactions = interactions.len();
    let mut i: usize = 0;
    while i < interactions.len()
        invariant
            i <= interactions@.len(),
            total_interactions == interactions@.len(),
            forall|j: int|
                0 <= j < i ==> #[trigger] interactions@[j].force_coeffs@.len()
                    == interactions@.len(),
        decreases interactions.len() - i,
    {
        match validate_single_interaction(&interactions[i], total_interactions) {
            Ok(()) => {},
            Err(e) => {
                proof {
                    let m = rows_view(interactions@);
                    assert(m[i as int].len() != m.len());
                }
                return Err(e);
            },
        }
        i = i + 1;
    }
    proof {
        let m = rows_view(interactions@);
        assert forall|k: int| 0 <= k < m.len() implies #[trigger] m[k].len() == m.len() by {
            assert(interactions@[k].force_coeffs@.len() == interactions@.len());
        }
    }
    Ok(ParticleSpec { interactions })
}

/// A row of `type_count` coefficients drawn from `[-COEFF_RANGE, COEFF_RANGE)`.
pub fn generate_single_interaction(rng: &mut SmallRng, type_count: usize) -> (r: Interaction)
    ensures
        r.force_coeffs@.len() == type_count,
        forall|j: int|
            0 <= j < type_count ==> -COEFF_RANGE <= #[trigger] r.force_coeffs@[j] < COEFF_RANGE,
{
    let mut force_coeffs: Vec<i64> = Vec::new();
    let mut j: usize = 0;
    while j < type_count
        invariant
            j <= type_count,
            force_coeffs@.len() == j,
            forall|k: int| 0 <= k < j ==> -COEFF_RANGE <= #[trigger] force_coeffs@[k] < COEFF_RANGE,
        decreases type_count - j,
    {
        force_coeffs.push(random_in_range(rng, -COEFF_RANGE, COEFF_RANGE));
        j = j + 1;
    }
    Interaction { force_coeffs }
}

/// A square matrix over `type_count` types with coefficients drawn from
/// `[-COEFF_RANGE, COEFF_RANGE)`.
pub fn generate_particle_spec(rng: &mut SmallRng, type_count: usize) -> (r: ParticleSpec)
    ensures
        r.wf(),
        r.matrix().len() == type_count,
        forall|i: int, j: int|
            0 <= i < type_count && 0 <= j < type_count ==> -COEFF_RANGE <= #[trigger] r.matrix()[i][j]
                < COEFF_RANGE,
{
    let mut interactions: Vec<Interaction> = Vec::new();
    let mut i: usize = 0;
    while i < type_count
        invariant
            i <= type_count,
            interactions@.len() == i,
            forall|k: int|
                0 <= k < i ==> (#[trigger] interactions@[k]).force_coeffs@.len() == type_count,
            forall|k: int, j: int|
                0 <= k < i && 0 <= j < type_count ==> -COEFF_RANGE
                    <= #[trigger] interactions@[k].force_coeffs@[j] < COEFF_RANGE,
        decreases type_count - i,
    {
        let row = generate_single_interaction(rng, type_count);
        interactions.push(row);
        proof {
            assert(interactions@[i as int] == row);
        }
        i = i + 1;
    }
    let r = ParticleSpec { interactions };
    proof {
        assert forall|k: int| 0 <= k < r.matrix().len() implies #[trigger] r.matrix()[k].len()
            == r.matrix().len() by {
            assert(r.interactions@[k].force_coeffs@.len() == type_count);
        }
        assert forall|k: int, j: int|
            0 <= k < type_count && 0 <= j < type_count implies -COEFF_RANGE
                <= #[trigger] r.matrix()[k][j] < COEFF_RANGE by {
            assert(r.matrix()[k] == r.interactions@[k].force_coeffs@);
        }
    }
    r
}

/// The 32 seed bytes made of `seed`'s eight little-endian bytes, four times
/// over.
pub fn seed_bytes(seed: u64) -> (r: Vec<u8>)
    ensures
        r@.len() == 32,
        forall|i: int|
            0 <= i < 32 ==> #[trigger] r@[i] == ((seed >> (8 * (i % 8)) as u64) & 0xff) as u8,
{
    let mut r: Vec<u8> = Vec::new();
    let mut i: usize = 0;
    while i < 32
        invariant
            i <= 32,
            r@.len() == i,
            forall|k: int|
                0 <= k < i ==> #[trigger] r@[k] == ((seed >> (8 * (k % 8)) as u64) & 0xff) as u8,
        decreases 32 - i,
    {
        let shift: u64 = 8 * ((i % 8) as u64);
        r.push(((seed >> shift) & 0xff) as u8);
        i = i + 1;
    }
    r
}

/// The generator that a given seed starts.
pub fn seeded_rng(seed: u64) -> SmallRng {
    let bytes = seed_bytes(seed);
    small_rng_from_seed(&bytes)
}

} // verus!
