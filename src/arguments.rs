//! The run configuration and the parsing of size options such as `64MiB`.
use vstd::prelude::*;
use vstd::string::StringSliceAdditionalSpecFns;

verus! {

/// What to run.
#[derive(Clone, Copy, Debug, PartialEq, Eq, Structural)]
pub enum Command {
    /// The full pipeline: scan, hash, plan, deduplicate.
    Dedupe,
    /// Print the extent map of each given file.
    PrintExtents,
}

/// The run configuration.
pub struct Arguments {
    pub command: Command,
    pub database_path: Option<Vec<u8>>,
    pub minimum_file_size: u64,
    pub content_hash_batch_size: u64,
    pub extent_hash_batch_size: u64,
    pub dedupe_batch_size: u64,
    pub dedupe_sleep_time: u64,
    pub root_paths: Vec<Vec<u8>>,
}

pub open spec fn ends_with(s: Seq<u8>, suffix: Seq<u8>) -> bool {
    s.len() >= suffix.len() && s.subrange(s.len() - suffix.len(), s.len() as int) == suffix
}

/// The multiplier and suffix length of a size string's unit, tried in this
/// order: `KiB`..`TiB` (base 1024), `KB`..`TB` (base 1000), `K`..`T` (base
/// 1024), `B`; a string that ends in a digit is a plain number of bytes.
pub open spec fn size_unit(s: Seq<u8>) -> Option<(nat, nat)> {
    // K = 75, M = 77, G = 71, T = 84, i = 105, B = 66
    if ends_with(s, seq![75u8, 105u8, 66u8]) {
        Some((1024, 3))
    } else if ends_with(s, seq![77u8, 105u8, 66u8]) {
        Some((1024 * 1024, 3))
    } else if ends_with(s, seq![71u8, 105u8, 66u8]) {
        Some((1024 * 1024 * 1024, 3))
    } else if ends_with(s, seq![84u8, 105u8, 66u8]) {
        Some((1024 * 1024 * 1024 * 1024, 3))
    } else if ends_with(s, seq![75u8, 66u8]) {
        Some((1000, 2))
    } else if ends_with(s, seq![77u8, 66u8]) {
        Some((1000 * 1000, 2))
    } else if ends_with(s, seq![71u8, 66u8]) {
        Some((1000 * 1000 * 1000, 2))
    } else if ends_with(s, seq![84u8, 66u8]) {
        Some((1000 * 1000 * 1000 * 1000, 2))
    } else if ends_with(s, seq![75u8]) {
        Some((1024, 1))
    } else if ends_with(s, seq![77u8]) {
        Some((1024 * 1024, 1))
    } else if ends_with(s, seq![71u8]) {
        Some((1024 * 1024 * 1024, 1))
    } else if ends_with(s, seq![84u8]) {
        Some((1024 * 1024 * 1024 * 1024, 1))
    } else if ends_with(s, seq![66u8]) {
        Some((1, 1))
    } else if s.len() > 0 && is_digit(s.last()) {
        Some((1, 0))
    } else {
        None
    }
}

pub open spec fn is_digit(c: u8) -> bool {
    48 <= c <= 57
}

/// The value of a string of decimal digits.
pub open spec fn digits_value(d: Seq<u8>) -> nat
    decreases d.len(),
{
    if d.len() == 0 {
        0
    } else {
        digits_value(d.drop_last()) * 10 + (d.last() - 48) as nat
    }
}

pub open spec fn all_digits(d: Seq<u8>) -> bool {
    forall|i: int| 0 <= i < d.len() ==> #[trigger] is_digit(d[i])
}

/// The digits of an unsigned decimal: an optional leading `+`, then at least one digit.
pub open spec fn decimal_digits(q: Seq<u8>) -> Option<Seq<u8>> {
    let d = if q.len() > 0 && q[0] == 43u8 {
        q.drop_first()
    } else {
        q
    };
    if d.len() > 0 && all_digits(d) {
        Some(d)
    } else {
        None
    }
}

/// The number of bytes a size string stands for, if it is valid and fits in 64 bits.
pub open spec fn size_value(s: Seq<u8>) -> Option<nat> {
    match size_unit(s) {
        None => None,
        Some((m, k)) => match decimal_digits(s.subrange(0, s.len() - k)) {
            None => None,
            Some(d) => if digits_value(d) * m <= u64::MAX {
                Some(digits_value(d) * m)
            } else {
                None
            },
        },
    }
}

proof fn lemma_digits_value_grows(d: Seq<u8>, k: int)
    requires
        0 <= k <= d.len(),
        all_digits(d),
    ensures
        digits_value(d.subrange(0, k)) <= digits_value(d),
    decreases d.len() - k,
{
    if k < d.len() {
        lemma_digits_value_grows(d, k + 1);
        assert(d.subrange(0, k + 1).drop_last() =~= d.subrange(0, k));
        assert(is_digit(d[k]));
    } else {
        assert(d.subrange(0, k) =~= d);
    }
}

fn ends_with_exec(s: &[u8], suffix: &[u8]) -> (r: bool)
    ensures
        r == ends_with(s@, suffix@),
{
    if s.len() < suffix.len() {
        return false;
    }
    let n = s.len();
    let off = n - suffix.len();
    let mut i: usize = 0;
    while i < suffix.len()
        invariant
            n == s@.len(),
            off == s@.len() - suffix@.len(),
            0 <= i <= suffix@.len(),
            forall|j: int| 0 <= j < i ==> s@[off + j] == #[trigger] suffix@[j],
        decreases suffix@.len() - i,
    {
        if s[off + i] != suffix[i] {
            assert(s@.subrange(off as int, s@.len() as int)[i as int] != suffix@[i as int]);
            return false;
        }
        i = i + 1;
    }
    assert(s@.subrange(off as int, s@.len() as int) =~= suffix@);
    true
}

fn unit_of(s: &[u8]) -> (r: Option<(u64, usize)>)
    ensures
        r matches Some((m, k)) ==> size_unit(s@) == Some((m as nat, k as nat)),
        r is None ==> size_unit(s@) is None,
{
    let kib: [u8; 3] = [75, 105, 66];
    let mib: [u8; 3] = [77, 105, 66];
    let gib: [u8; 3] = [71, 105, 66];
    let tib: [u8; 3] = [84, 105, 66];
    let kb: [u8; 2] = [75, 66];
    let mb: [u8; 2] = [77, 66];
    let gb: [u8; 2] = [71, 66];
    let tb: [u8; 2] = [84, 66];
    let k1: [u8; 1] = [75];
    let m1: [u8; 1] = [77];
    let g1: [u8; 1] = [71];
    let t1: [u8; 1] = [84];
    let b1: [u8; 1] = [66];
    assert(kib@ =~= seq![75u8, 105u8, 66u8]);
    assert(mib@ =~= seq![77u8, 105u8, 66u8]);
    assert(gib@ =~= seq![71u8, 105u8, 66u8]);
    assert(tib@ =~= seq![84u8, 105u8, 66u8]);
    assert(kb@ =~= seq![75u8, 66u8]);
    assert(mb@ =~= seq![77u8, 66u8]);
    assert(gb@ =~= seq![71u8, 66u8]);
    assert(tb@ =~= seq![84u8, 66u8]);
    assert(k1@ =~= seq![75u8]);
    assert(m1@ =~= seq![77u8]);
    assert(g1@ =~= seq![71u8]);
    assert(t1@ =~= seq![84u8]);
    assert(b1@ =~= seq![66u8]);
    if ends_with_exec(s, kib.as_slice()) {
        Some((1024, 3))
    } else if ends_with_exec(s, mib.as_slice()) {
        Some((1024 * 1024, 3))
    } else if ends_with_exec(s, gib.as_slice()) {
        Some((1024 * 1024 * 1024, 3))
    } else if ends_with_exec(s, tib.as_slice()) {
        Some((1024 * 1024 * 1024 * 1024, 3))
    } else if ends_with_exec(s, kb.as_slice()) {
        Some((1000, 2))
    } else if ends_with_exec(s, mb.as_slice()) {
        Some((1000 * 1000, 2))
    } else if ends_with_exec(s, gb.as_slice()) {
        Some((1000 * 1000 * 1000, 2))
    } else if ends_with_exec(s, tb.as_slice()) {
        Some((1000 * 1000 * 1000 * 1000, 2))
    } else if ends_with_exec(s, k1.as_slice()) {
        Some((1024, 1))
    } else if ends_with_exec(s, m1.as_slice()) {
        Some((1024 * 1024, 1))
    } else if ends_with_exec(s, g1.as_slice()) {
        Some((1024 * 1024 * 1024, 1))
    } else if ends_with_exec(s, t1.as_slice()) {
        Some((1024 * 1024 * 1024 * 1024, 1))
    } else if ends_with_exec(s, b1.as_slice()) {
        Some((1, 1))
    } else if s.len() > 0 && 48 <= s[s.len() - 1] && s[s.len() - 1] <= 57 {
        Some((1, 0))
    } else {
        None
    }
}

/// Parses an unsigned decimal made of `s[0..end]`.
fn parse_decimal(s: &[u8], end: usize) -> (r: Option<u64>)
    requires
        end <= s@.len(),
    ensures
        r matches Some(v) ==> decimal_digits(s@.subrange(0, end as int)) matches Some(d)
            && digits_value(d) == v,
        r is None ==> (decimal_digits(s@.subrange(0, end as int)) matches Some(d) ==> digits_value(
            d,
        ) > u64::MAX),
{
    let ghost q = s@.subrange(0, end as int);
    let start: usize = if end > 0 && s[0] == 43 {
        1
    } else {
        0
    };
    let ghost d = q.subrange(start as int, q.len() as int);
    assert(start == 1 ==> d =~= q.drop_first());
    assert(start == 0 ==> d =~= q);
    assert(decimal_digits(q) == (if d.len() > 0 && all_digits(d) {
        Some(d)
    } else {
        None::<Seq<u8>>
    }));
    if start == end {
        return None;
    }
    let mut v: u64 = 0;
    let mut i: usize = start;
    while i < end
        invariant
            q == s@.subrange(0, end as int),
            decimal_digits(q) == (if d.len() > 0 && all_digits(d) {
                Some(d)
            } else {
                None::<Seq<u8>>
            }),
            start <= i <= end,
            end <= s@.len(),
            d == s@.subrange(start as int, end as int),
            forall|j: int| start <= j < i ==> #[trigger] is_digit(s@[j]),
            v == digits_value(s@.subrange(start as int, i as int)),
        decreases end - i,
    {
        let c = s[i];
        if c < 48 || c > 57 {
            assert(d[i - start] == s@[i as int]);
            assert(!is_digit(d[i - start]));
            return None;
        }
        assert(s@.subrange(start as int, i + 1).drop_last() =~= s@.subrange(start as int, i as int));
        let next = match v.checked_mul(10) {
            Some(t) => t.checked_add((c - 48) as u64),
            None => None,
        };
        match next {
            Some(n) => {
                v = n;
            },
            None => {
                proof {
                    if all_digits(d) {
                        lemma_digits_value_grows(d, (i + 1 - start) as int);
                        assert(d.subrange(0, (i + 1 - start) as int) =~= s@.subrange(
                            start as int,
                            i + 1,
                        ));
                    }
                }
                return None;
            },
        }
        i = i + 1;
    }
    assert(d =~= s@.subrange(start as int, i as int));
    Some(v)
}

/// Parses a size such as `1KiB`, `5MB`, `2G`, `100B` or `4096` into bytes.
pub fn parse_size(size_string: &str) -> (r: Result<u64, String>)
    ensures
        r is Ok <==> size_value(size_string.spec_bytes()) is Some,
        r matches Ok(v) ==> size_value(size_string.spec_bytes()) == Some(v as nat),
{
    let s = size_string.as_bytes();
    let (multiplier, suffix_length) = match unit_of(s) {
        Some(u) => u,
        None => {
            return Err("Units not specified or recognised".to_owned());
        },
    };
    let end = s.len() - suffix_length;
    let quantity = match parse_decimal(s, end) {
        Some(v) => v,
        None => {
            proof {
                if let Some(d) = decimal_digits(s@.subrange(0, end as int)) {
                    let x = digits_value(d);
                    let m = multiplier as nat;
                    assert(m >= 1);
                    assert(x * m >= x) by (nonlinear_arith)
                        requires
                            m >= 1,
                    ;
                }
            }
            return Err("Unable to parse integer value".to_owned());
        },
    };
    match quantity.checked_mul(multiplier) {
        Some(v) => Ok(v),
        None => Err("Size too large".to_owned()),
    }
}

} // verus!
