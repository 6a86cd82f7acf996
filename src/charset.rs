//! The character-set specification language.
//!
//! A specification is an optional leading `^` followed by items: a literal
//! byte, an escaped `\-` or `\\`, or a range `a-b` whose ends are literal or
//! escaped. Only printable ASCII may occur. With `^` the set is complemented
//! within printable ASCII.

use vstd::prelude::*;
use vstd::utf8::encode_utf8;
use crate::error::PasswordError;

verus! {

pub const HYPHEN: u8 = 45;
pub const BACKSLASH: u8 = 92;
pub const CARET: u8 = 94;

/// Where the scanner stands between two bytes of the specification.
#[derive(Clone, Copy)]
pub enum ParserState {
    Start,
    Char(u8),
    Escape,
    Range(u8),
    RangeEscape(u8),
}

/// Printable, non-control ASCII: the only bytes a specification may use.
pub open spec fn is_typeable(b: u8) -> bool {
    0x20 <= b && b <= 0x7e
}

pub open spec fn typeable_set() -> Set<u8> {
    Set::new(|b: u8| is_typeable(b))
}

/// The bytes a range `start-end` adds besides `start` itself.
pub open spec fn range_above(start: u8, end: u8) -> Set<u8> {
    Set::new(|b: u8| start < b && b <= end)
}

/// One transition of the scanner on byte `b`, with the set marked so far.
pub open spec fn step(state: ParserState, allowed: Set<u8>, b: u8) -> Result<
    (ParserState, Set<u8>),
    PasswordError,
> {
    if !is_typeable(b) {
        Err(PasswordError::Untypeable)
    } else {
        match state {
            ParserState::Start => if b == HYPHEN {
                Err(PasswordError::UnescapedHyphen)
            } else if b == BACKSLASH {
                Ok((ParserState::Escape, allowed))
            } else {
                Ok((ParserState::Char(b), allowed.insert(b)))
            },
            ParserState::Char(prev) => if b == HYPHEN {
                Ok((ParserState::Range(prev), allowed))
            } else if b == BACKSLASH {
                Ok((ParserState::Escape, allowed))
            } else {
                Ok((ParserState::Char(b), allowed.insert(b)))
            },
            ParserState::Escape => if b == HYPHEN || b == BACKSLASH {
                Ok((ParserState::Char(b), allowed.insert(b)))
            } else {
                Err(PasswordError::InvalidEscape(b))
            },
            ParserState::Range(start) => if b == HYPHEN {
                Err(PasswordError::UnescapedHyphen)
            } else if b == BACKSLASH {
                Ok((ParserState::RangeEscape(start), allowed))
            } else {
                Ok((ParserState::Start, allowed.union(range_above(start, b))))
            },
            ParserState::RangeEscape(start) => if b == HYPHEN || b == BACKSLASH {
                Ok((ParserState::Start, allowed.union(range_above(start, b))))
            } else {
                Err(PasswordError::InvalidEscape(b))
            },
        }
    }
}

/// The scanner run over `items` from `Start` with nothing marked; the first
/// error met is the result.
pub open spec fn scan(items: Seq<u8>) -> Result<(ParserState, Set<u8>), PasswordError>
    decreases items.len(),
{
    if items.len() == 0 {
        Ok((ParserState::Start, Set::empty()))
    } else {
        match scan(items.drop_last()) {
            Err(e) => Err(e),
            Ok((state, allowed)) => step(state, allowed, items.last()),
        }
    }
}

/// The members of `allowed` below `n`, ascending.
pub open spec fn listing_below(allowed: Set<u8>, n: nat) -> Seq<u8>
    decreases n,
{
    if n == 0 {
        Seq::empty()
    } else {
        let rest = listing_below(allowed, (n - 1) as nat);
        if allowed.contains((n - 1) as u8) {
            rest.push((n - 1) as u8)
        } else {
            rest
        }
    }
}

/// The ASCII members of `allowed`, ascending.
pub open spec fn listing(allowed: Set<u8>) -> Seq<u8> {
    listing_below(allowed, 128)
}

/// What the end of the input makes of the scanner's last state and set.
pub open spec fn finish(invert: bool, state: ParserState, allowed: Set<u8>) -> Result<
    Seq<u8>,
    PasswordError,
> {
    match state {
        ParserState::Escape | ParserState::RangeEscape(_) => Err(PasswordError::UnterminatedEscape),
        ParserState::Range(_) => Err(PasswordError::UnterminatedRange),
        _ => {
            let set = if invert {
                typeable_set().difference(allowed)
            } else {
                allowed
            };
            if listing(set).len() == 0 {
                Err(PasswordError::EmptyCharset)
            } else {
                Ok(listing(set))
            }
        },
    }
}

/// The charset that the specification bytes `spec` denote, or the error it
/// is rejected with.
pub open spec fn compile(spec: Seq<u8>) -> Result<Seq<u8>, PasswordError> {
    if spec.len() == 0 {
        Err(PasswordError::EmptySpec)
    } else {
        let invert = spec[0] == CARET;
        let items = if invert {
            spec.drop_first()
        } else {
            spec
        };
        match scan(items) {
            Err(e) => Err(e),
            Ok((state, allowed)) => finish(invert, state, allowed),
        }
    }
}

/// A charset as the sampler needs it: non-empty, strictly ascending, and
/// printable ASCII only.
pub open spec fn is_charset(c: Seq<u8>) -> bool {
    &&& c.len() > 0
    &&& forall|i: int, j: int| 0 <= i < j < c.len() ==> c[i] < c[j]
    &&& forall|i: int| 0 <= i < c.len() ==> is_typeable(#[trigger] c[i])
}

/// The bytes a state remembers are printable.
pub open spec fn state_ok(state: ParserState) -> bool {
    match state {
        ParserState::Char(b) | ParserState::Range(b) | ParserState::RangeEscape(b) => is_typeable(b),
        _ => true,
    }
}

/// `marks` holds one flag per ASCII byte, set exactly for the members of
/// `allowed`; every member is printable.
pub open spec fn models(marks: Seq<bool>, allowed: Set<u8>) -> bool {
    &&& marks.len() == 128
    &&& forall|b: u8| b < 128 ==> marks[b as int] == #[trigger] allowed.contains(b)
    &&& forall|b: u8| #[trigger] allowed.contains(b) ==> is_typeable(b)
}

/// Once a prefix of the input is rejected, so is the whole input, with the
/// same error.
proof fn lemma_scan_error_sticks(items: Seq<u8>, k: int)
    requires
        0 <= k <= items.len(),
        scan(items.subrange(0, k)) is Err,
    ensures
        scan(items) == scan(items.subrange(0, k)),
    decreases items.len(),
{
    if k == items.len() {
        assert(items.subrange(0, k) =~= items);
    } else {
        assert(items.drop_last().subrange(0, k) =~= items.subrange(0, k));
        lemma_scan_error_sticks(items.drop_last(), k);
    }
}

/// The listing of a set below `n` holds exactly its members below `n`, in
/// strictly ascending order.
pub proof fn lemma_listing_below(allowed: Set<u8>, n: nat)
    requires
        n <= 256,
    ensures
        forall|x: u8| #[trigger]
            listing_below(allowed, n).contains(x) <==> (x < n && allowed.contains(x)),
        forall|i: int, j: int|
            0 <= i < j < listing_below(allowed, n).len() ==> listing_below(allowed, n)[i]
                < listing_below(allowed, n)[j],
        forall|i: int|
            0 <= i < listing_below(allowed, n).len() ==> #[trigger] listing_below(allowed, n)[i]
                < n,
    decreases n,
{
    if n > 0 {
        let m = (n - 1) as nat;
        lemma_listing_below(allowed, m);
        let rest = listing_below(allowed, m);
        if allowed.contains(m as u8) {
            let l = rest.push(m as u8);
            assert forall|x: u8| #[trigger] l.contains(x) <==> (x < n && allowed.contains(x)) by {
                if x == m as u8 {
                    assert(l[rest.len() as int] == x);
                } else if l.contains(x) {
                    let i = choose|i: int| 0 <= i < l.len() && l[i] == x;
                    assert(i < rest.len());
                    assert(rest[i] == x);
                    assert(rest.contains(x));
                } else if x < m && allowed.contains(x) {
                    assert(rest.contains(x));
                    let i = choose|i: int| 0 <= i < rest.len() && rest[i] == x;
                    assert(l[i] == x);
                }
            }
        }
    }
}

/// The ASCII members of a set of printable bytes, listed, form a charset
/// when there is at least one.
pub proof fn lemma_listing_is_charset(allowed: Set<u8>)
    requires
        forall|b: u8| #[trigger] allowed.contains(b) ==> is_typeable(b),
        listing(allowed).len() > 0,
    ensures
        is_charset(listing(allowed)),
{
    lemma_listing_below(allowed, 128);
    let l = listing(allowed);
    assert forall|i: int| 0 <= i < l.len() implies is_typeable(#[trigger] l[i]) by {
        assert(l.contains(l[i]));
    }
}

fn typeable(b: u8) -> (r: bool)
    ensures
        r == is_typeable(b),
{
    0x20 <= b && b <= 0x7e
}

fn mark(marks: &mut Vec<bool>, b: u8, Ghost(allowed): Ghost<Set<u8>>)
    requires
        models(old(marks)@, allowed),
        is_typeable(b),
    ensures
        models(final(marks)@, allowed.insert(b)),
{
    marks.set(b as usize, true);
    assert forall|c: u8| c < 128 implies marks@[c as int] == #[trigger] allowed.insert(b).contains(
        c,
    ) by {
        if c != b {
            assert(marks@[c as int] == old(marks)@[c as int]);
        }
    }
}

/// Marks every byte of `(start, end]`.
fn mark_range(marks: &mut Vec<bool>, start: u8, end: u8, Ghost(allowed): Ghost<Set<u8>>)
    requires
        models(old(marks)@, allowed),
        is_typeable(start),
        is_typeable(end),
    ensures
        models(final(marks)@, allowed.union(range_above(start, end))),
{
    let mut b: u8 = start + 1;
    while b <= end
        invariant
            start < b <= 0x7f,
            b <= end + 1 || b == start + 1,
            is_typeable(start),
            is_typeable(end),
            models(marks@, allowed.union(Set::new(|x: u8| start < x && x < b))),
        decreases 0x7f - b,
    {
        let ghost before = allowed.union(Set::new(|x: u8| start < x && x < b));
        let ghost after = allowed.union(Set::new(|x: u8| start < x && x < b + 1));
        assert(after =~= before.insert(b));
        mark(marks, b, Ghost(before));
        b = b + 1;
    }
    assert(Set::new(|x: u8| start < x && x < b) =~= range_above(start, end));
}

/// Applies one transition of the scanner to `marks`.
fn advance(state: ParserState, marks: &mut Vec<bool>, b: u8, Ghost(allowed): Ghost<Set<u8>>) -> (r:
    Result<ParserState, PasswordError>)
    requires
        models(old(marks)@, allowed),
        state_ok(state),
    ensures
        r matches Ok(next) ==> state_ok(next),
        match step(state, allowed, b) {
            Ok((next, set)) => r == Ok::<ParserState, PasswordError>(next) && models(
                final(marks)@,
                set,
            ),
            Err(e) => r == Err::<ParserState, PasswordError>(e),
        },
{
    if !typeable(b) {
        return Err(PasswordError::Untypeable);
    }
    match state {
        ParserState::Start | ParserState::Char(_) => {
            if b == HYPHEN {
                match state {
                    ParserState::Char(prev) => Ok(ParserState::Range(prev)),
                    _ => Err(PasswordError::UnescapedHyphen),
                }
            } else if b == BACKSLASH {
                Ok(ParserState::Escape)
            } else {
                mark(marks, b, Ghost(allowed));
                Ok(ParserState::Char(b))
            }
        },
        ParserState::Escape => {
            if b == HYPHEN || b == BACKSLASH {
                mark(marks, b, Ghost(allowed));
                Ok(ParserState::Char(b))
            } else {
                Err(PasswordError::InvalidEscape(b))
            }
        },
        ParserState::Range(start) => {
            if b == HYPHEN {
                Err(PasswordError::UnescapedHyphen)
            } else if b == BACKSLASH {
                Ok(ParserState::RangeEscape(start))
            } else {
                mark_range(marks, start, b, Ghost(allowed));
                Ok(ParserState::Start)
            }
        },
        ParserState::RangeEscape(start) => {
            if b == HYPHEN || b == BACKSLASH {
                mark_range(marks, start, b, Ghost(allowed));
                Ok(ParserState::Start)
            } else {
                Err(PasswordError::InvalidEscape(b))
            }
        },
    }
}

/// Compiles a specification into the ascending list of bytes it allows.
pub fn parse_charset_spec(charset_spec: &String) -> (r: Result<Vec<u8>, PasswordError>)
    ensures
        match r {
            Ok(c) => compile(encode_utf8(charset_spec@)) == Ok::<Seq<u8>, PasswordError>(c@),
            Err(e) => compile(encode_utf8(charset_spec@)) == Err::<Seq<u8>, PasswordError>(e),
        },
        r matches Ok(c) ==> is_charset(c@),
{
    let bytes: &[u8] = charset_spec.as_str().as_bytes();
    let ghost spec = bytes@;
    if bytes.len() == 0 {
        return Err(PasswordError::EmptySpec);
    }
    let invert = bytes[0] == CARET;
    let first: usize = if invert {
        1
    } else {
        0
    };
    let ghost items = spec.subrange(first as int, spec.len() as int);
    assert(items =~= if invert {
        spec.drop_first()
    } else {
        spec
    });
    let mut marks: Vec<bool> = Vec::new();
    while marks.len() < 128
        invariant
            marks.len() <= 128,
            forall|j: int| 0 <= j < marks.len() ==> !marks@[j],
        decreases 128 - marks.len(),
    {
        marks.push(false);
    }
    let mut state = ParserState::Start;
    let ghost mut allowed: Set<u8> = Set::empty();
    let mut i: usize = first;
    assert(spec.subrange(first as int, first as int) =~= Seq::<u8>::empty());
    while i < bytes.len()
        invariant
            first <= i <= bytes.len(),
            bytes@ == spec,
            items == spec.subrange(first as int, spec.len() as int),
            spec == encode_utf8(charset_spec@),
            spec.len() > 0,
            invert == (spec[0] == CARET),
            items == if invert {
                spec.drop_first()
            } else {
                spec
            },
            scan(spec.subrange(first as int, i as int)) == Ok::<
                (ParserState, Set<u8>),
                PasswordError,
            >((state, allowed)),
            state_ok(state),
            models(marks@, allowed),
        decreases bytes.len() - i,
    {
        let b = bytes[i];
        let ghost prefix = spec.subrange(first as int, i + 1);
        assert(prefix.drop_last() =~= spec.subrange(first as int, i as int));
        assert(items.subrange(0, i + 1 - first) =~= prefix);
        match advance(state, &mut marks, b, Ghost(allowed)) {
            Ok(next) => {
                proof {
                    allowed = step(state, allowed, b)->Ok_0.1;
                }
                state = next;
            },
            Err(e) => {
                proof {
                    assert(scan(prefix) == step(state, allowed, b));
                    assert(scan(prefix) == Err::<(ParserState, Set<u8>), PasswordError>(e));
                    lemma_scan_error_sticks(items, i + 1 - first);
                    assert(scan(items) == Err::<(ParserState, Set<u8>), PasswordError>(e));
                }
                return Err(e);
            },
        }
        i = i + 1;
    }
    assert(spec.subrange(first as int, i as int) =~= items);
    match state {
        ParserState::Escape | ParserState::RangeEscape(_) => {
            return Err(PasswordError::UnterminatedEscape);
        },
        ParserState::Range(_) => {
            return Err(PasswordError::UnterminatedRange);
        },
        _ => {},
    }
    let ghost set = if invert {
        typeable_set().difference(allowed)
    } else {
        allowed
    };
    if invert {
        let mut j: usize = 0;
        while j < 128
            invariant
                j <= 128,
                marks@.len() == 128,
                set == typeable_set().difference(allowed),
                forall|b: u8| #[trigger] allowed.contains(b) ==> is_typeable(b),
                forall|b: u8| b < j ==> marks@[b as int] == #[trigger] set.contains(b),
                forall|b: u8| j <= b < 128 ==> marks@[b as int] == #[trigger] allowed.contains(b),
            decreases 128 - j,
        {
            let flag = typeable(j as u8) && !marks[j];
            marks.set(j, flag);
            j = j + 1;
        }
    }
    assert(models(marks@, set));
    let mut out: Vec<u8> = Vec::new();
    let mut j: usize = 0;
    while j < 128
        invariant
            j <= 128,
            models(marks@, set),
            out@ == listing_below(set, j as nat),
        decreases 128 - j,
    {
        if marks[j] {
            out.push(j as u8);
        }
        j = j + 1;
    }
    if out.len() == 0 {
        return Err(PasswordError::EmptyCharset);
    }
    proof {
        lemma_listing_is_charset(set);
    }
    Ok(out)
}

/// A successful scan marks printable bytes only, and remembers printable
/// bytes only.
pub proof fn lemma_scan_typeable(items: Seq<u8>)
    ensures
        scan(items) matches Ok((state, allowed)) ==> state_ok(state) && forall|b: u8| #[trigger]
            allowed.contains(b) ==> is_typeable(b),
    decreases items.len(),
{
    if items.len() > 0 {
        lemma_scan_typeable(items.drop_last());
    }
}

/// Compiling is a function of the specification: the same specification
/// always gives the same bytes in the same order, or the same error.
pub proof fn compile_is_deterministic(s1: Seq<u8>, s2: Seq<u8>)
    requires
        s1 == s2,
    ensures
        compile(s1) == compile(s2),
{
}

/// A caret in front of a valid specification that does not itself start
/// with a caret gives exactly the printable bytes that the specification
/// leaves out; when it leaves none out, the result is the empty-set error.
pub proof fn inversion_complements(s: Seq<u8>)
    requires
        compile(s) is Ok,
        s[0] != CARET,
    ensures
        (exists|x: u8| is_typeable(x) && !compile(s)->Ok_0.contains(x)) ==> compile(
            seq![CARET] + s,
        ) is Ok,
        !(exists|x: u8| is_typeable(x) && !compile(s)->Ok_0.contains(x)) ==> compile(
            seq![CARET] + s,
        ) == Err::<Seq<u8>, PasswordError>(PasswordError::EmptyCharset),
        compile(seq![CARET] + s) matches Ok(c) ==> forall|x: u8|
            c.contains(x) <==> (is_typeable(x) && !compile(s)->Ok_0.contains(x)),
{
    let t = seq![CARET] + s;
    assert(t.drop_first() =~= s);
    lemma_scan_typeable(s);
    let allowed = scan(s)->Ok_0.1;
    let inverse = typeable_set().difference(allowed);
    lemma_listing_below(allowed, 128);
    lemma_listing_below(inverse, 128);
    let c = compile(s)->Ok_0;
    assert(c == listing(allowed));
    assert forall|x: u8| #[trigger] listing(inverse).contains(x) <==> (is_typeable(x)
        && !c.contains(x)) by {
        if is_typeable(x) {
            assert(x < 128);
        }
        if allowed.contains(x) {
            assert(x < 128);
        }
    }
    if exists|x: u8| is_typeable(x) && !c.contains(x) {
        let x = choose|x: u8| is_typeable(x) && !c.contains(x);
        assert(listing(inverse).contains(x));
    } else {
        if listing(inverse).len() > 0 {
            let y = listing(inverse)[0];
            assert(listing(inverse).contains(y));
        }
    }
}

/// `a-d` allows exactly the bytes from `a` to `d`, both ends included.
pub proof fn range_is_inclusive(a: u8, d: u8)
    requires
        is_typeable(a),
        is_typeable(d),
        a != HYPHEN,
        a != BACKSLASH,
        a != CARET,
        d != HYPHEN,
        d != BACKSLASH,
        a <= d,
    ensures
        compile(seq![a, HYPHEN, d]) is Ok,
        forall|x: u8| compile(seq![a, HYPHEN, d])->Ok_0.contains(x) <==> a <= x <= d,
{
    let s = seq![a, HYPHEN, d];
    assert(s.drop_last() =~= seq![a, HYPHEN]);
    assert(seq![a, HYPHEN].drop_last() =~= seq![a]);
    assert(seq![a].drop_last() =~= Seq::<u8>::empty());
    let allowed = Set::<u8>::empty().insert(a).union(range_above(a, d));
    assert(scan(Seq::<u8>::empty()) == Ok::<(ParserState, Set<u8>), PasswordError>(
        (ParserState::Start, Set::<u8>::empty()),
    ));
    assert(seq![a].last() == a);
    assert(seq![a, HYPHEN].last() == HYPHEN);
    assert(s.last() == d);
    assert(scan(seq![a]) == Ok::<(ParserState, Set<u8>), PasswordError>(
        (ParserState::Char(a), Set::<u8>::empty().insert(a)),
    ));
    assert(scan(seq![a, HYPHEN]) == Ok::<(ParserState, Set<u8>), PasswordError>(
        (ParserState::Range(a), Set::<u8>::empty().insert(a)),
    ));
    assert(scan(s) == Ok::<(ParserState, Set<u8>), PasswordError>((ParserState::Start, allowed)));
    lemma_listing_below(allowed, 128);
    assert(listing(allowed).contains(a));
}

} // verus!
