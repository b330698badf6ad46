//! Immutable generations of generated output: the numbering of new generations and the
//! tests that decide whether the current generation still matches the latest snapshot.

use vstd::prelude::*;
use crate::snapshot::{decimal, digit_char, push_decimal};
use crate::text::{all_digits, digit_value, digits_value, is_digit, parse_u64, parse_u64_spec, str_eq, to_chars};

verus! {

pub const GENERATED_GENERATION_SCHEMA: &'static str = "athanor.generated_generation.v1";
pub const GENERATED_CURRENT_SCHEMA: &'static str = "athanor.generated_current.v1";

/// What the generate command is asked for.
pub struct GenerationOptions {
    pub root: String,
    pub force: bool,
}

/// Whether a generation was published or the current one was kept.
pub enum GenerationStatus {
    Published,
    UpToDate,
}

/// Timings of a generation, in milliseconds.
pub struct GenerationMetrics {
    pub schema: String,
    pub total_ms: u64,
    pub snapshot_load_ms: u64,
    pub jsonl_ms: u64,
    pub wiki_ms: u64,
    pub html_ms: u64,
    pub publish_ms: u64,
}

/// What a generate run reports.
pub struct GenerationReport {
    pub schema: String,
    pub status: GenerationStatus,
    pub root: String,
    pub generation: String,
    pub generation_dir: String,
    pub current_pointer: String,
    pub snapshot: String,
    pub entities: usize,
    pub facts: usize,
    pub relations: usize,
    pub diagnostics: usize,
    pub metrics: GenerationMetrics,
}

/// The pointer to the current generation.
pub struct CurrentGeneration {
    pub schema: String,
    pub generation: String,
    pub snapshot: String,
    pub path: String,
    pub manifest: String,
}

/// The largest generation number among directory names that parse as `u64`, or zero.
pub open spec fn max_generation(names: Seq<Seq<char>>) -> nat
    decreases names.len(),
{
    if names.len() == 0 {
        0
    } else {
        let rest = max_generation(names.drop_last());
        match parse_u64_spec(names.last()) {
            Some(n) => if n > rest { n as nat } else { rest },
            None => rest,
        }
    }
}

/// The views of a vector of strings.
pub open spec fn name_views(v: Seq<String>) -> Seq<Seq<char>> {
    Seq::new(v.len(), |i: int| v[i]@)
}

/// `digits` padded on the left with zeros to at least `width` characters.
pub open spec fn zero_padded(digits: Seq<char>, width: nat) -> Seq<char> {
    if digits.len() >= width {
        digits
    } else {
        Seq::new((width - digits.len()) as nat, |i: int| '0') + digits
    }
}

/// The name of generation `n`: its decimal digits, zero-padded to eight.
pub open spec fn generation_name(n: nat) -> Seq<char> {
    zero_padded(decimal(n), 8)
}

/// The number the next generation gets: one past the largest existing one, unless that
/// overflows `u64`.
pub fn next_generation_number(names: &Vec<String>) -> (r: Option<u64>)
    ensures
        r == (if max_generation(name_views(names@)) < u64::MAX {
            Some((max_generation(name_views(names@)) + 1) as u64)
        } else {
            None::<u64>
        }),
{
    let mut max: u64 = 0;
    let mut i: usize = 0;
    while i < names.len()
        invariant
            i <= names@.len(),
            max == max_generation(name_views(names@).take(i as int)),
        decreases names.len() - i,
    {
        let chars = to_chars(names[i].as_str());
        let parsed = parse_u64(chars.as_slice());
        assert(name_views(names@).take(i + 1).drop_last() =~= name_views(names@).take(i as int));
        match parsed {
            Some(n) => {
                if n > max {
                    max = n;
                }
            },
            None => {},
        }
        i = i + 1;
    }
    assert(name_views(names@).take(i as int) =~= name_views(names@));
    max.checked_add(1)
}

/// Renders generation `n` as `generation_name` says.
pub fn generation_id(n: u64) -> (r: String)
    ensures
        r@ == generation_name(n as nat),
{
    let mut digits = String::new();
    push_decimal(&mut digits, n);
    assert(digits@ =~= decimal(n as nat));
    let len = to_chars(digits.as_str()).len();
    let mut r = String::new();
    let mut k: usize = len;
    proof {
        reveal_strlit("0");
    }
    while k < 8
        invariant
            len == decimal(n as nat).len(),
            len <= k <= 8 || (len > 8 && k == len),
            r@ == Seq::new((k - len) as nat, |i: int| '0'),
        decreases 8 - k,
    {
        proof {
            reveal_strlit("0");
        }
        r.append("0");
        k = k + 1;
        assert(r@ =~= Seq::new((k - len) as nat, |i: int| '0'));
    }
    r.append(digits.as_str());
    assert(r@ =~= generation_name(n as nat));
    r
}

/// The name of the generation that follows those in `names`, or `None` where the
/// numbering overflows.
pub fn next_generation_id(names: &Vec<String>) -> (r: Option<String>)
    ensures
        match r {
            None => max_generation(name_views(names@)) == u64::MAX,
            Some(id) => max_generation(name_views(names@)) < u64::MAX
                && id@ == generation_name(max_generation(name_views(names@)) + 1),
        },
{
    proof {
        lemma_max_generation_bounded(name_views(names@));
    }
    match next_generation_number(names) {
        None => None,
        Some(n) => Some(generation_id(n)),
    }
}

proof fn lemma_max_generation_bounded(names: Seq<Seq<char>>)
    ensures
        max_generation(names) <= u64::MAX,
    decreases names.len(),
{
    if names.len() > 0 {
        lemma_max_generation_bounded(names.drop_last());
    }
}

/// The pointer names the current schema and the latest snapshot.
pub open spec fn pointer_current(current: CurrentGeneration, latest_snapshot: Seq<char>) -> bool {
    current.schema@ == GENERATED_CURRENT_SCHEMA@ && current.snapshot@ == latest_snapshot
}

/// Whether the pointer names the current schema and the latest snapshot.
pub fn pointer_is_current(current: &CurrentGeneration, latest_snapshot: &str) -> (r: bool)
    ensures
        r == pointer_current(*current, latest_snapshot@),
{
    str_eq(current.schema.as_str(), GENERATED_CURRENT_SCHEMA) && str_eq(current.snapshot.as_str(), latest_snapshot)
}

/// The generation manifest confirms the pointer: it has the generation schema and names
/// the pointer's generation and the latest snapshot.
pub open spec fn manifest_confirms(
    schema: Seq<char>,
    generation: Seq<char>,
    snapshot: Seq<char>,
    current: CurrentGeneration,
    latest_snapshot: Seq<char>,
) -> bool {
    schema == GENERATED_GENERATION_SCHEMA@ && generation == current.generation@ && snapshot == latest_snapshot
}

/// Whether the manifest read from the generation confirms the pointer.
pub fn manifest_is_current(
    schema: &str,
    generation: &str,
    snapshot: &str,
    current: &CurrentGeneration,
    latest_snapshot: &str,
) -> (r: bool)
    ensures
        r == manifest_confirms(schema@, generation@, snapshot@, *current, latest_snapshot@),
{
    str_eq(schema, GENERATED_GENERATION_SCHEMA) && str_eq(generation, current.generation.as_str())
        && str_eq(snapshot, latest_snapshot)
}

proof fn lemma_digit_char_value(m: nat)
    requires
        m < 10,
    ensures
        is_digit(digit_char(m)),
        digit_value(digit_char(m)) == m,
{
}

proof fn lemma_decimal_digits(n: nat)
    ensures
        decimal(n).len() > 0,
        all_digits(decimal(n)),
        digits_value(decimal(n)) == n,
    decreases n,
{
    lemma_digit_char_value(n % 10);
    let d = decimal(n);
    assert(digits_value(d) == digits_value(d.drop_last()) * 10 + digit_value(d.last()));
    if n < 10 {
        assert(d.drop_last() =~= Seq::<char>::empty());
        assert(digits_value(d.drop_last()) == 0);
        assert(n % 10 == n);
        assert(d.last() == digit_char(n));
    } else {
        lemma_decimal_digits(n / 10);
        assert(d.drop_last() == decimal(n / 10));
        assert(d.last() == digit_char(n % 10));
        assert(n == (n / 10) * 10 + n % 10);
        assert forall|i: int| 0 <= i < d.len() implies is_digit(#[trigger] d[i]) by {
            if i < d.len() - 1 {
                assert(d[i] == decimal(n / 10)[i]);
            }
        }
    }
}

proof fn lemma_zeros_value(k: nat)
    ensures
        all_digits(Seq::new(k, |i: int| '0')),
        digits_value(Seq::new(k, |i: int| '0')) == 0,
    decreases k,
{
    if k > 0 {
        lemma_zeros_value((k - 1) as nat);
        assert(Seq::new(k, |i: int| '0').drop_last() =~= Seq::new((k - 1) as nat, |i: int| '0'));
    }
}

proof fn lemma_leading_zeros(k: nat, d: Seq<char>)
    ensures
        digits_value(Seq::new(k, |i: int| '0') + d) == digits_value(d),
    decreases d.len(),
{
    let z = Seq::new(k, |i: int| '0');
    if d.len() == 0 {
        assert(z + d =~= z);
        lemma_zeros_value(k);
    } else {
        lemma_leading_zeros(k, d.drop_last());
        assert((z + d).drop_last() =~= z + d.drop_last());
        assert((z + d).last() == d.last());
    }
}

/// A generation's directory name reads back as its number: parsing the zero-padded name
/// of `n` gives `n`.
pub proof fn lemma_generation_name_round_trip(n: nat)
    requires
        n <= u64::MAX,
    ensures
        parse_u64_spec(generation_name(n)) == Some(n as u64),
{
    lemma_decimal_digits(n);
    let d = decimal(n);
    let g = generation_name(n);
    if d.len() < 8 {
        let z = Seq::new((8 - d.len()) as nat, |i: int| '0');
        lemma_leading_zeros((8 - d.len()) as nat, d);
        lemma_zeros_value((8 - d.len()) as nat);
        assert(g == z + d);
        assert forall|i: int| 0 <= i < g.len() implies is_digit(#[trigger] g[i]) by {
            if i < z.len() {
                assert(g[i] == z[i]);
            } else {
                assert(g[i] == d[i - z.len()]);
            }
        }
    }
    assert(is_digit(g[0]));
}

/// The next generation is newer than every existing one: every directory name that
/// parses as a number is at most the largest generation.
pub proof fn lemma_existing_generations_at_most_max(names: Seq<Seq<char>>)
    ensures
        forall|i: int| 0 <= i < names.len() ==> match #[trigger] parse_u64_spec(names[i]) {
            Some(k) => k <= max_generation(names),
            None => true,
        },
    decreases names.len(),
{
    if names.len() > 0 {
        let d = names.drop_last();
        lemma_existing_generations_at_most_max(d);
        assert forall|i: int| 0 <= i < names.len() implies match #[trigger] parse_u64_spec(names[i]) {
            Some(k) => k <= max_generation(names),
            None => true,
        } by {
            if i < d.len() {
                assert(names[i] == d[i]);
            }
        }
    }
}

} // verus!
