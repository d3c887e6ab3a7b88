use vstd::prelude::*;
use vstd::slice::slice_subrange;
use vstd::string::StringSliceAdditionalSpecFns;
use vstd::utf8::encode_utf8;

verus! {

/// One retention tier: a point every `precision` seconds, `points` of them.
#[derive(PartialEq, Eq, Structural, Debug, Clone, Copy)]
pub struct RetentionPolicy {
    pub precision: u64,
    pub points: u64,
}

/// Why a retention spec is not of the form `<number>[unit]:<number>[unit]`.
#[derive(PartialEq, Eq, Structural, Debug, Clone, Copy)]
pub enum ParseError {
    /// The spec holds no colon.
    MissingColon,
    /// What stands before the first colon is no positive 64-bit quantity.
    BadPrecision,
    /// What stands after the first colon is no positive 64-bit quantity.
    BadPoints,
}

pub open spec fn is_digit(b: u8) -> bool {
    48 <= b <= 57
}

/// The seconds that a unit letter stands for: `s`, `m`, `h`, `d`, `w`, `y`.
pub open spec fn spec_unit_seconds(b: u8) -> Option<int> {
    if b == 115 {
        Some(1)
    } else if b == 109 {
        Some(60)
    } else if b == 104 {
        Some(3600)
    } else if b == 100 {
        Some(86400)
    } else if b == 119 {
        Some(604800)
    } else if b == 121 {
        Some(31536000)
    } else {
        None
    }
}

pub open spec fn all_digits(s: Seq<u8>) -> bool {
    forall|i: int| 0 <= i < s.len() ==> is_digit(#[trigger] s[i])
}

/// The number that decimal digits spell.
pub open spec fn spec_digits_value(s: Seq<u8>) -> int
    decreases s.len(),
{
    if s.len() == 0 {
        0
    } else {
        spec_digits_value(s.drop_last()) * 10 + (s.last() - 48)
    }
}

/// The seconds that a quantity stands for: one or more digits, then at most
/// one unit letter, which multiplies the number.
pub open spec fn spec_quantity(s: Seq<u8>) -> Option<int> {
    if s.len() == 0 {
        None
    } else if all_digits(s) {
        Some(spec_digits_value(s))
    } else if s.len() >= 2 && all_digits(s.drop_last()) && spec_unit_seconds(s.last()) is Some {
        Some(spec_digits_value(s.drop_last()) * spec_unit_seconds(s.last())->Some_0)
    } else {
        None
    }
}

/// A quantity that is positive and fits 64 bits.
pub open spec fn spec_bounded_quantity(s: Seq<u8>) -> Option<u64> {
    match spec_quantity(s) {
        Some(q) => if 0 < q <= u64::MAX {
            Some(q as u64)
        } else {
            None
        },
        None => None,
    }
}

/// `c` is where the first colon of `s` stands.
pub open spec fn is_first_colon(s: Seq<u8>, c: int) -> bool {
    &&& 0 <= c < s.len()
    &&& s[c] == 58
    &&& forall|j: int| 0 <= j < c ==> #[trigger] s[j] != 58
}

/// What a retention spec stands for: the quantity before its first colon is
/// the precision, the one after it the number of points.
pub open spec fn spec_parse(s: Seq<u8>) -> Result<RetentionPolicy, ParseError> {
    if !(exists|c: int| is_first_colon(s, c)) {
        Err(ParseError::MissingColon)
    } else {
        let c = choose|c: int| is_first_colon(s, c);
        match spec_bounded_quantity(s.subrange(0, c)) {
            None => Err(ParseError::BadPrecision),
            Some(precision) => match spec_bounded_quantity(s.subrange(c + 1, s.len() as int)) {
                None => Err(ParseError::BadPoints),
                Some(points) => Ok(RetentionPolicy { precision, points }),
            },
        }
    }
}

/// The digits of a prefix spell no more than the digits of the whole.
pub proof fn lemma_digits_value_monotone(s: Seq<u8>, k: int)
    requires
        all_digits(s),
        0 <= k <= s.len(),
    ensures
        0 <= spec_digits_value(s.take(k)) <= spec_digits_value(s),
    decreases s.len(),
{
    if s.len() == 0 {
        assert(s.take(k) =~= s);
    } else if k == s.len() {
        assert(s.take(k) =~= s);
        lemma_digits_value_monotone(s.drop_last(), k - 1);
    } else {
        lemma_digits_value_monotone(s.drop_last(), k);
        assert(s.drop_last().take(k) =~= s.take(k));
        assert(is_digit(s.last()));
    }
}

fn unit_seconds(b: u8) -> (res: Option<u64>)
    ensures
        match res {
            Some(u) => spec_unit_seconds(b) == Some(u as int),
            None => spec_unit_seconds(b) is None,
        },
{
    if b == 115 {
        Some(1)
    } else if b == 109 {
        Some(60)
    } else if b == 104 {
        Some(3600)
    } else if b == 100 {
        Some(86400)
    } else if b == 119 {
        Some(604800)
    } else if b == 121 {
        Some(31536000)
    } else {
        None
    }
}

/// Reads a quantity: digits, then at most one unit letter. `None` when the
/// bytes are no quantity, or the quantity is zero or exceeds 64 bits.
pub fn parse_quantity(buf: &[u8]) -> (res: Option<u64>)
    ensures
        res == spec_bounded_quantity(buf@),
{
    let len = buf.len();
    if len == 0 {
        return None;
    }
    let last = buf[len - 1];
    let mut unit: u64 = 1;
    let mut end: usize = len;
    if !(48 <= last && last <= 57) {
        match unit_seconds(last) {
            None => {
                assert(!is_digit(buf@[len - 1]));
                return None;
            },
            Some(u) => {
                unit = u;
                end = len - 1;
            },
        }
        assert(!is_digit(buf@[len - 1]));
    }
    if end == 0 {
        return None;
    }
    let ghost digits = buf@.take(end as int);
    let mut value: u64 = 0;
    let mut i: usize = 0;
    while i < end
        invariant
            0 <= i <= end <= len,
            len == buf@.len(),
            digits == buf@.take(end as int),
            end == len ==> unit == 1 && is_digit(buf@[len - 1]),
            end < len ==> end == len - 1 && !is_digit(buf@[len - 1]) && spec_unit_seconds(
                buf@[len - 1],
            ) == Some(unit as int),
            all_digits(digits.take(i as int)),
            value == spec_digits_value(digits.take(i as int)),
        decreases end - i,
    {
        let b = buf[i];
        if !(48 <= b && b <= 57) {
            assert(!is_digit(digits[i as int]));
            assert(!is_digit(buf@[i as int]));
            assert(end < len ==> buf@.drop_last() =~= digits);
            assert(end == len ==> buf@ =~= digits);
            return None;
        }
        proof {
            let next = digits.take(i + 1);
            assert(next.drop_last() =~= digits.take(i as int));
            assert(next.last() == b);
            assert forall|j: int| 0 <= j < next.len() implies is_digit(#[trigger] next[j]) by {
                if j < i {
                    assert(digits.take(i as int)[j] == next[j]);
                }
            }
        }
        let scaled = match value.checked_mul(10) {
            None => None,
            Some(v) => v.checked_add((b - 48) as u64),
        };
        match scaled {
            None => {
                proof {
                    assert(spec_digits_value(digits.take(i + 1)) > u64::MAX);
                    assert(end < len ==> buf@.drop_last() =~= digits);
                    assert(end == len ==> buf@ =~= digits);
                    lemma_overflowing_prefix(buf@, digits, unit as int, i + 1);
                }
                return None;
            },
            Some(v) => {
                value = v;
            },
        }
        i = i + 1;
    }
    proof {
        assert(digits.take(end as int) =~= digits);
        assert(end < len ==> buf@.drop_last() =~= digits);
        assert(end == len ==> buf@ =~= digits);
        assert(spec_quantity(buf@) == Some(value * unit));
    }
    match value.checked_mul(unit) {
        None => None,
        Some(total) => if total == 0 {
            None
        } else {
            Some(total)
        },
    }
}

/// When a prefix of the digits already exceeds 64 bits, the quantity, if
/// it is one, does too.
proof fn lemma_overflowing_prefix(s: Seq<u8>, digits: Seq<u8>, unit: int, k: int)
    requires
        s.len() > 0,
        digits.len() > 0,
        digits == s || (digits == s.drop_last() && !is_digit(s.last())),
        digits == s ==> unit == 1 && is_digit(s.last()),
        digits != s ==> spec_unit_seconds(s.last()) == Some(unit),
        0 <= k <= digits.len(),
        spec_digits_value(digits.take(k)) > u64::MAX,
    ensures
        spec_bounded_quantity(s) is None,
{
    if all_digits(digits) {
        lemma_digits_value_monotone(digits, k);
        assert(spec_digits_value(digits) * unit >= spec_digits_value(digits)) by (nonlinear_arith)
            requires
                unit >= 1,
                spec_digits_value(digits) >= 0,
        ;
        if digits != s {
            assert(!all_digits(s));
        }
    } else {
        if digits != s {
            assert(!all_digits(s)) by {
                if all_digits(s) {
                    assert forall|i: int| 0 <= i < digits.len() implies is_digit(
                        #[trigger] digits[i],
                    ) by {
                        assert(digits[i] == s[i]);
                    }
                }
            }
        }
    }
}

impl RetentionPolicy {
    /// Both numbers are positive.
    pub open spec fn wf(&self) -> bool {
        self.precision > 0 && self.points > 0
    }

    /// The seconds that the tier covers.
    pub open spec fn spec_retention(&self) -> int {
        self.precision * self.points
    }

    /// Reads a retention spec such as `60s:1440` or `15m:8w`.
    pub fn parse_bytes(buf: &[u8]) -> (res: Result<RetentionPolicy, ParseError>)
        ensures
            res == spec_parse(buf@),
            res is Ok ==> res->Ok_0.wf(),
    {
        let len = buf.len();
        let mut c: usize = 0;
        while c < len && buf[c] != 58
            invariant
                0 <= c <= len,
                len == buf@.len(),
                forall|j: int| 0 <= j < c ==> #[trigger] buf@[j] != 58,
            decreases len - c,
        {
            c = c + 1;
        }
        if c == len {
            assert(forall|k: int| !is_first_colon(buf@, k));
            return Err(ParseError::MissingColon);
        }
        proof {
            assert(is_first_colon(buf@, c as int));
            let chosen = choose|k: int| is_first_colon(buf@, k);
            assert(chosen == c);
        }
        let precision = match parse_quantity(slice_subrange(buf, 0, c)) {
            None => { return Err(ParseError::BadPrecision); },
            Some(q) => q,
        };
        let points = match parse_quantity(slice_subrange(buf, c + 1, len)) {
            None => { return Err(ParseError::BadPoints); },
            Some(q) => q,
        };
        Ok(RetentionPolicy { precision, points })
    }

    /// Reads a retention spec from text.
    pub fn parse(spec: &str) -> (res: Result<RetentionPolicy, ParseError>)
        ensures
            res == spec_parse(spec.spec_bytes()),
            res is Ok ==> res->Ok_0.wf(),
    {
        RetentionPolicy::parse_bytes(spec.as_bytes())
    }
}

/// The retention tiers of a file, finest first.
#[derive(PartialEq, Debug)]
pub struct Schema {
    pub retention_policies: Vec<RetentionPolicy>,
}

/// Why retention specs make no schema. The lists hold positions in the
/// input, in increasing order.
#[derive(PartialEq, Debug)]
pub enum SchemaError {
    /// No spec was given.
    Empty,
    /// The specs at these positions do not parse.
    Unparsable(Vec<usize>),
    /// The policies at these positions are zero somewhere or do not follow
    /// the policy before them.
    Invalid(Vec<usize>),
}

/// A coarser tier may follow a finer one: its precision is a larger
/// multiple of the finer precision, it covers a longer span, and the finer
/// tier holds enough points to fill one of its buckets.
pub open spec fn spec_follows(finer: RetentionPolicy, coarser: RetentionPolicy) -> bool {
    &&& 0 < finer.precision < coarser.precision
    &&& coarser.precision % finer.precision == 0
    &&& finer.precision * finer.points < coarser.precision * coarser.points
    &&& finer.points >= coarser.precision / finer.precision
}

/// The policy at position `i` is positive and follows the one before it.
pub open spec fn spec_fits_at(policies: Seq<RetentionPolicy>, i: int) -> bool {
    policies[i].wf() && (i > 0 ==> spec_follows(policies[i - 1], policies[i]))
}

/// There is a policy, and each one fits where it stands.
pub open spec fn spec_valid(policies: Seq<RetentionPolicy>) -> bool {
    &&& policies.len() > 0
    &&& forall|i: int| 0 <= i < policies.len() ==> spec_fits_at(policies, i)
}

/// The positions below `n` of the policies that do not fit, in order.
pub open spec fn spec_misfits(policies: Seq<RetentionPolicy>, n: nat) -> Seq<usize>
    decreases n,
{
    if n == 0 {
        Seq::empty()
    } else if spec_fits_at(policies, n - 1) {
        spec_misfits(policies, (n - 1) as nat)
    } else {
        spec_misfits(policies, (n - 1) as nat).push((n - 1) as usize)
    }
}

/// The positions below `n` of the specs that do not parse, in order.
pub open spec fn spec_unparsable(specs: Seq<String>, n: nat) -> Seq<usize>
    decreases n,
{
    if n == 0 {
        Seq::empty()
    } else if spec_parse(encode_utf8(specs[n - 1]@)) is Ok {
        spec_unparsable(specs, (n - 1) as nat)
    } else {
        spec_unparsable(specs, (n - 1) as nat).push((n - 1) as usize)
    }
}

/// What each spec parses to, for specs that all parse.
pub open spec fn spec_policies(specs: Seq<String>) -> Seq<RetentionPolicy> {
    Seq::new(specs.len(), |i: int| spec_parse(encode_utf8(specs[i]@))->Ok_0)
}

/// No policy below `n` is a misfit exactly when each of them fits.
pub proof fn lemma_misfits_empty(policies: Seq<RetentionPolicy>, n: nat)
    ensures
        spec_misfits(policies, n).len() == 0 <==> forall|i: int|
            0 <= i < n ==> spec_fits_at(policies, i),
    decreases n,
{
    if n > 0 {
        lemma_misfits_empty(policies, (n - 1) as nat);
    }
}

/// Policies of which one has a precision that is no multiple of the
/// precision before it are no schema.
pub proof fn lemma_uneven_precision_is_invalid(policies: Seq<RetentionPolicy>, i: int)
    requires
        0 < i < policies.len(),
        policies[i - 1].precision == 0 || policies[i].precision % policies[i - 1].precision != 0,
    ensures
        !spec_valid(policies),
{
    assert(!spec_fits_at(policies, i));
}

/// Policies of which one covers no longer a span than the one before it
/// are no schema.
pub proof fn lemma_span_that_does_not_grow_is_invalid(policies: Seq<RetentionPolicy>, i: int)
    requires
        0 < i < policies.len(),
        policies[i].spec_retention() <= policies[i - 1].spec_retention(),
    ensures
        !spec_valid(policies),
{
    assert(!spec_fits_at(policies, i));
}

/// No spec below `n` is unparsable exactly when each of them parses.
pub proof fn lemma_unparsable_empty(specs: Seq<String>, n: nat)
    ensures
        spec_unparsable(specs, n).len() == 0 <==> forall|i: int|
            0 <= i < n ==> (#[trigger] spec_parse(encode_utf8(specs[i]@))) is Ok,
    decreases n,
{
    if n > 0 {
        lemma_unparsable_empty(specs, (n - 1) as nat);
    }
}

/// Whether `coarser` may follow `finer` in a schema.
pub fn follows(finer: &RetentionPolicy, coarser: &RetentionPolicy) -> (res: bool)
    ensures
        res == spec_follows(*finer, *coarser),
{
    if finer.precision == 0 || finer.precision >= coarser.precision {
        return false;
    }
    if coarser.precision % finer.precision != 0 {
        return false;
    }
    assert(finer.precision * finer.points <= 0xFFFF_FFFF_FFFF_FFFF * 0xFFFF_FFFF_FFFF_FFFF)
        by (nonlinear_arith)
        requires
            finer.precision <= 0xFFFF_FFFF_FFFF_FFFF,
            finer.points <= 0xFFFF_FFFF_FFFF_FFFF,
    ;
    assert(coarser.precision * coarser.points <= 0xFFFF_FFFF_FFFF_FFFF * 0xFFFF_FFFF_FFFF_FFFF)
        by (nonlinear_arith)
        requires
            coarser.precision <= 0xFFFF_FFFF_FFFF_FFFF,
            coarser.points <= 0xFFFF_FFFF_FFFF_FFFF,
    ;
    let finer_span: u128 = finer.precision as u128 * finer.points as u128;
    let coarser_span: u128 = coarser.precision as u128 * coarser.points as u128;
    finer_span < coarser_span && finer.points >= coarser.precision / finer.precision
}

impl View for Schema {
    type V = Seq<RetentionPolicy>;

    open spec fn view(&self) -> Seq<RetentionPolicy> {
        self.retention_policies@
    }
}

impl Schema {
    /// A schema of the given policies, if they make one; otherwise the
    /// positions of all the policies that do not fit.
    pub fn new(policies: Vec<RetentionPolicy>) -> (res: Result<Schema, SchemaError>)
        ensures
            res is Ok <==> spec_valid(policies@),
            match res {
                Ok(schema) => schema@ == policies@,
                Err(SchemaError::Empty) => policies@.len() == 0,
                Err(SchemaError::Invalid(bad)) => policies@.len() > 0 && bad@.len() > 0 && bad@
                    == spec_misfits(policies@, policies@.len()),
                Err(SchemaError::Unparsable(_)) => false,
            },
    {
        let n = policies.len();
        if n == 0 {
            return Err(SchemaError::Empty);
        }
        let mut bad: Vec<usize> = Vec::new();
        let mut i: usize = 0;
        while i < n
            invariant
                0 <= i <= n,
                n == policies@.len(),
                bad@ == spec_misfits(policies@, i as nat),
            decreases n - i,
        {
            let p = &policies[i];
            let fits = p.precision > 0 && p.points > 0 && (i == 0 || follows(&policies[i - 1], p));
            if !fits {
                bad.push(i);
            }
            i = i + 1;
        }
        proof {
            lemma_misfits_empty(policies@, n as nat);
        }
        if bad.len() > 0 {
            Err(SchemaError::Invalid(bad))
        } else {
            Ok(Schema { retention_policies: policies })
        }
    }

    /// Parses every spec and, if all of them parse, makes a schema of the
    /// policies. All the specs that do not parse are reported together, and
    /// so are all the policies that do not fit.
    pub fn new_from_retention_specs(specs: Vec<String>) -> (res: Result<Schema, SchemaError>)
        ensures
            res is Ok <==> spec_unparsable(specs@, specs@.len()).len() == 0 && spec_valid(
                spec_policies(specs@),
            ),
            match res {
                Ok(schema) => schema@ == spec_policies(specs@),
                Err(SchemaError::Empty) => specs@.len() == 0,
                Err(SchemaError::Unparsable(bad)) => bad@.len() > 0 && bad@ == spec_unparsable(
                    specs@,
                    specs@.len(),
                ),
                Err(SchemaError::Invalid(bad)) => specs@.len() > 0 && spec_unparsable(
                    specs@,
                    specs@.len(),
                ).len() == 0 && bad@.len() > 0 && bad@ == spec_misfits(
                    spec_policies(specs@),
                    specs@.len(),
                ),
            },
    {
        let n = specs.len();
        let mut policies: Vec<RetentionPolicy> = Vec::new();
        let mut bad: Vec<usize> = Vec::new();
        let mut i: usize = 0;
        while i < n
            invariant
                0 <= i <= n,
                n == specs@.len(),
                bad@ == spec_unparsable(specs@, i as nat),
                bad@.len() == 0 ==> policies@ == spec_policies(specs@).take(i as int),
            decreases n - i,
        {
            match RetentionPolicy::parse(specs[i].as_str()) {
                Ok(policy) => {
                    proof {
                        if bad@.len() == 0 {
                            assert(policies@.push(policy) =~= spec_policies(specs@).take(i + 1));
                        }
                    }
                    policies.push(policy);
                },
                Err(_) => {
                    bad.push(i);
                },
            }
            i = i + 1;
        }
        if bad.len() > 0 {
            return Err(SchemaError::Unparsable(bad));
        }
        proof {
            assert(spec_policies(specs@).take(n as int) =~= spec_policies(specs@));
        }
        Schema::new(policies)
    }
}

} // verus!
