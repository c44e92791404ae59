//! Who made a commit and when: the `name <email> seconds zone` text of
//! author and committer lines.

use crate::bytes::{append_bytes, copy_range, find_byte, find_from, lacks, lemma_find_from, lemma_find_from_is, NL, SP};
use crate::decimal::{
    decimal_text, decimal_value, format_decimal, is_decimal, is_digit, lemma_decimal_text,
    lemma_decimal_text_of_value, parse_decimal,
};
use vstd::prelude::*;

verus! {

/// `<`, which opens the email.
pub const LT: u8 = 0x3c;

/// `>`, which closes the email.
pub const GT: u8 = 0x3e;

/// `+`, the sign of a zone east of Greenwich.
pub const PLUS: u8 = 0x2b;

/// `-`, the sign of a zone west of Greenwich.
pub const MINUS: u8 = 0x2d;

/// What a signature says, as plain values.
#[verifier::ext_equal]
pub struct SignatureView {
    /// The person's name, as the bytes that were written.
    pub name: Seq<u8>,
    /// The email address, without the angle brackets.
    pub email: Seq<u8>,
    /// Seconds since the epoch.
    pub timestamp: int,
    /// The zone as it is written: a sign, two digits of hours, two of
    /// minutes.
    pub zone: Seq<u8>,
}

impl SignatureView {
    /// What holds of every signature: the name has no `<` and no line feed,
    /// the email no `>` and no line feed, the time is not negative and fits in
    /// 63 bits, and the zone is a sign and four digits.
    pub open spec fn wf(self) -> bool {
        &&& lacks(self.name, LT)
        &&& lacks(self.name, NL)
        &&& lacks(self.email, GT)
        &&& lacks(self.email, NL)
        &&& 0 <= self.timestamp <= i64::MAX
        &&& is_zone(self.zone)
    }

    /// The zone as minutes east of Greenwich.
    pub open spec fn offset_minutes(self) -> int {
        zone_minutes(self.zone)
    }
}

/// Whether `z` is a sign followed by four digits.
pub open spec fn is_zone(z: Seq<u8>) -> bool {
    &&& z.len() == 5
    &&& (z[0] == PLUS || z[0] == MINUS)
    &&& is_digit(z[1])
    &&& is_digit(z[2])
    &&& is_digit(z[3])
    &&& is_digit(z[4])
}

/// The minutes east of Greenwich that a zone stands for: sixty for each
/// of its hours and one for each of its minutes, negated under a minus sign.
pub open spec fn zone_minutes(z: Seq<u8>) -> int {
    let minutes = ((z[1] - 0x30) * 10 + (z[2] - 0x30)) * 60 + (z[3] - 0x30) * 10 + (z[4] - 0x30);
    if z[0] == MINUS {
        -minutes
    } else {
        minutes
    }
}

/// The text of a signature: name, a space, the email in angle brackets, a
/// space, the seconds in decimal, a space, the zone.
pub open spec fn signature_text(s: SignatureView) -> Seq<u8> {
    s.name + seq![SP, LT] + s.email + seq![GT, SP] + decimal_text(s.timestamp as nat) + seq![SP]
        + s.zone
}

/// The signature that `line` is the text of, if it is the text of one. The
/// name ends before the first ` <`, the email at the first `>` after it.
pub open spec fn signature_of(line: Seq<u8>) -> Option<SignatureView> {
    let lt = find_from(line, 0, LT);
    let gt = find_from(line, lt + 1, GT);
    let sp = find_from(line, gt + 2, SP);
    let seconds = line.subrange(gt + 2, sp);
    let zone = line.subrange(sp + 1, line.len() as int);
    if lacks(line, NL) && 1 <= lt < line.len() && line[lt - 1] == SP && gt + 1 < line.len()
        && line[gt + 1] == SP && sp < line.len() && is_decimal(seconds) && decimal_value(seconds)
        <= i64::MAX && is_zone(zone) {
        Some(
            SignatureView {
                name: line.subrange(0, lt - 1),
                email: line.subrange(lt + 1, gt),
                timestamp: decimal_value(seconds) as int,
                zone,
            },
        )
    } else {
        None
    }
}

/// Where the parts of a signature's text lie.
proof fn lemma_signature_layout(s: SignatureView)
    requires
        s.wf(),
    ensures
        ({
            let t = signature_text(s);
            let d = decimal_text(s.timestamp as nat);
            let a = s.name.len() as int;
            let b = a + 2 + s.email.len();
            let c = b + 2 + d.len();
            &&& t.len() == c + 6
            &&& t.subrange(0, a) == s.name
            &&& t[a] == SP
            &&& t[a + 1] == LT
            &&& t.subrange(a + 2, b) == s.email
            &&& t[b] == GT
            &&& t[b + 1] == SP
            &&& t.subrange(b + 2, c) == d
            &&& t[c] == SP
            &&& t.subrange(c + 1, c + 6) == s.zone
            &&& lacks(t, NL)
        }),
{
    let t = signature_text(s);
    let d = decimal_text(s.timestamp as nat);
    let z = s.zone;
    let a = s.name.len() as int;
    let b = a + 2 + s.email.len();
    let c = b + 2 + d.len();
    lemma_decimal_text(s.timestamp as nat);
    assert forall|i: int| 0 <= i < t.len() implies #[trigger] t[i] != NL by {
        if i < a {
            assert(t[i] == s.name[i]);
        } else if a + 2 <= i < b {
            assert(t[i] == s.email[i - a - 2]);
        } else if b + 2 <= i < c {
            assert(t[i] == d[i - b - 2]);
            assert(is_digit(d[i - b - 2]));
        } else if c + 1 <= i {
            assert(t[i] == z[i - c - 1]);
        }
    }
}

/// A line that reads as a signature is the text of that signature.
pub proof fn lemma_signature_of_sound(line: Seq<u8>)
    requires
        signature_of(line) is Some,
    ensures
        signature_of(line)->0.wf(),
        signature_text(signature_of(line)->0) == line,
{
    let s = signature_of(line)->0;
    let lt = find_from(line, 0, LT);
    lemma_find_from(line, 0, LT);
    let gt = find_from(line, lt + 1, GT);
    lemma_find_from(line, lt + 1, GT);
    let sp = find_from(line, gt + 2, SP);
    lemma_find_from(line, gt + 2, SP);
    let seconds = line.subrange(gt + 2, sp);
    lemma_decimal_text_of_value(seconds);
    assert forall|i: int| 0 <= i < s.name.len() implies #[trigger] s.name[i] != LT && s.name[i]
        != NL by {
        assert(s.name[i] == line[i]);
    }
    assert forall|i: int| 0 <= i < s.email.len() implies #[trigger] s.email[i] != GT
        && s.email[i] != NL by {
        assert(s.email[i] == line[lt + 1 + i]);
    }
}

/// The text of a signature reads as that signature.
pub proof fn lemma_signature_of_complete(s: SignatureView)
    requires
        s.wf(),
    ensures
        signature_of(signature_text(s)) == Some(s),
{
    let t = signature_text(s);
    let d = decimal_text(s.timestamp as nat);
    let a = s.name.len() as int;
    let b = a + 2 + s.email.len();
    let c = b + 2 + d.len();
    lemma_signature_layout(s);
    lemma_decimal_text(s.timestamp as nat);
    assert forall|j: int| 0 <= j < a + 1 implies #[trigger] t[j] != LT by {
        if j < a {
            assert(t.subrange(0, a)[j] == s.name[j]);
        }
    }
    lemma_find_from_is(t, 0, LT, a + 1);
    assert forall|j: int| a + 2 <= j < b implies #[trigger] t[j] != GT by {
        assert(t.subrange(a + 2, b)[j - a - 2] == s.email[j - a - 2]);
    }
    lemma_find_from_is(t, a + 2, GT, b);
    assert forall|j: int| b + 2 <= j < c implies #[trigger] t[j] != SP by {
        assert(t.subrange(b + 2, c)[j - b - 2] == d[j - b - 2]);
        assert(is_digit(d[j - b - 2]));
    }
    lemma_find_from_is(t, b + 2, SP, c);
}

/// Who wrote or committed a change, and when.
#[derive(Debug, PartialEq, Eq)]
pub struct Signature {
    name: Vec<u8>,
    email: Vec<u8>,
    timestamp: i64,
    zone: Vec<u8>,
}

impl View for Signature {
    type V = SignatureView;

    closed spec fn view(&self) -> SignatureView {
        SignatureView {
            name: self.name@,
            email: self.email@,
            timestamp: self.timestamp as int,
            zone: self.zone@,
        }
    }
}

fn digit_at(line: &[u8], at: usize) -> (r: bool)
    requires
        at < line@.len(),
    ensures
        r == is_digit(line@[at as int]),
{
    let b: u8 = line[at];
    0x30 <= b && b <= 0x39
}

fn has_byte(s: &[u8], b: u8) -> (r: bool)
    ensures
        r == !lacks(s@, b),
{
    let at = find_byte(s, 0, b);
    proof {
        lemma_find_from(s@, 0, b);
    }
    at < s.len()
}

impl Signature {
    /// Every signature is well formed.
    #[verifier::type_invariant]
    pub open spec fn well_formed(self) -> bool {
        self@.wf()
    }

    /// Reads a signature from the text after `author ` or `committer `, up to
    /// but without the line feed. `None` where the text is not that of a
    /// signature.
    pub fn parse(line: &[u8]) -> (r: Option<Signature>)
        ensures
            match r {
                Some(s) => signature_of(line@) == Some(s@) && s@.wf() && signature_text(s@)
                    == line@,
                None => signature_of(line@) is None && forall|s: SignatureView|
                    s.wf() ==> #[trigger] signature_text(s) != line@,
            },
    {
        proof {
            if signature_of(line@) is Some {
                lemma_signature_of_sound(line@);
            } else {
                assert forall|s: SignatureView| s.wf() implies #[trigger] signature_text(s)
                    != line@ by {
                    lemma_signature_of_complete(s);
                }
            }
        }
        let n: usize = line.len();
        if has_byte(line, NL) {
            return None;
        }
        let lt = find_byte(line, 0, LT);
        if lt < 1 || lt >= n || line[lt - 1] != SP {
            return None;
        }
        let gt = find_byte(line, lt + 1, GT);
        if gt >= n || n - gt < 2 || line[gt + 1] != SP {
            proof {
                lemma_find_from(line@, lt + 1, GT);
            }
            return None;
        }
        let sp = find_byte(line, gt + 2, SP);
        if sp >= n {
            return None;
        }
        let seconds = match parse_decimal(vstd::slice::slice_subrange(line, gt + 2, sp)) {
            Some(v) => v,
            None => {
                return None;
            },
        };
        if seconds > 0x7fff_ffff_ffff_ffff {
            return None;
        }
        if n - sp != 6 {
            return None;
        }
        let ghost zone = line@.subrange(sp + 1, n as int);
        let sign: u8 = line[sp + 1];
        if sign != PLUS && sign != MINUS {
            return None;
        }
        if !digit_at(line, sp + 2) || !digit_at(line, sp + 3) || !digit_at(line, sp + 4)
            || !digit_at(line, sp + 5) {
            return None;
        }
        let name = copy_range(line, 0, lt - 1);
        let email = copy_range(line, lt + 1, gt);
        let zone = copy_range(line, sp + 1, n);
        proof {
            lemma_signature_of_sound(line@);
        }
        Some(Signature { name, email, timestamp: seconds as i64, zone })
    }

    /// Writes the signature as text.
    pub fn encode(&self) -> (r: Vec<u8>)
        ensures
            r@ == signature_text(self@),
    {
        proof {
            use_type_invariant(self);
        }
        let mut out: Vec<u8> = Vec::new();
        append_bytes(&mut out, self.name.as_slice());
        out.push(SP);
        out.push(LT);
        append_bytes(&mut out, self.email.as_slice());
        out.push(GT);
        out.push(SP);
        let seconds = format_decimal(self.timestamp as u64);
        append_bytes(&mut out, seconds.as_slice());
        out.push(SP);
        append_bytes(&mut out, self.zone.as_slice());
        out
    }

    /// The person's name, as the bytes that were written.
    pub fn name(&self) -> (r: &[u8])
        ensures
            r@ == self@.name,
    {
        self.name.as_slice()
    }

    /// The email address, without the angle brackets.
    pub fn email(&self) -> (r: &[u8])
        ensures
            r@ == self@.email,
    {
        self.email.as_slice()
    }

    /// Seconds since the epoch.
    pub fn timestamp(&self) -> (r: i64)
        ensures
            r == self@.timestamp,
            r >= 0,
    {
        proof {
            use_type_invariant(self);
        }
        self.timestamp
    }

    /// The zone as it is written: a sign and four digits.
    pub fn zone(&self) -> (r: &[u8])
        ensures
            r@ == self@.zone,
            is_zone(r@),
    {
        proof {
            use_type_invariant(self);
        }
        self.zone.as_slice()
    }

    /// The zone as minutes east of Greenwich.
    pub fn offset_minutes(&self) -> (r: i32)
        ensures
            r == self@.offset_minutes(),
    {
        proof {
            use_type_invariant(self);
        }
        let hours: i32 = (self.zone[1] - 0x30) as i32 * 10 + (self.zone[2] - 0x30) as i32;
        let minutes: i32 = hours * 60 + (self.zone[3] - 0x30) as i32 * 10 + (self.zone[4]
            - 0x30) as i32;
        if self.zone[0] == MINUS {
            -minutes
        } else {
            minutes
        }
    }
}

impl Clone for Signature {
    fn clone(&self) -> (r: Self)
        ensures
            r@ == self@,
    {
        proof {
            use_type_invariant(self);
        }
        let name = self.name.clone();
        let email = self.email.clone();
        let zone = self.zone.clone();
        Signature { name, email, timestamp: self.timestamp, zone }
    }
}

} // verus!
