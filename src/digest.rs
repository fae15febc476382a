use vstd::prelude::*;
use sha2::Digest;

verus! {

/// What SHA-256 returns on a byte sequence: 32 bytes that depend on the input alone.
pub uninterp spec fn sha256_of(data: Seq<u8>) -> Seq<u8>;

/// The bytes that a running SHA-256 state has absorbed since it was created or reset.
pub uninterp spec fn absorbed(h: Sha256State) -> Seq<u8>;

/// A running SHA-256 state of the `sha2` crate. Its type is a chain of generic
/// wrappers that cannot be declared to Verus one by one, so it is held here
/// behind an opaque struct and spoken of through `absorbed`.
#[verifier::external_body]
pub struct Sha256State {
    inner: sha2::Sha256,
}

/// Relies on `sha2::Sha256::new` (through `Digest::new`): a fresh state has absorbed nothing.
#[verifier::external_body]
fn sha256_new() -> (r: Sha256State)
    ensures
        absorbed(r) == Seq::<u8>::empty(),
{
    Sha256State { inner: sha2::Sha256::new() }
}

/// Relies on `Digest::update` of `sha2::Sha256`: the bytes are appended to what was absorbed.
#[verifier::external_body]
fn sha256_update(h: &mut Sha256State, data: &[u8])
    ensures
        absorbed(*final(h)) == absorbed(*old(h)) + data@,
{
    Digest::update(&mut h.inner, data)
}

/// Relies on `Digest::finalize_reset` of `sha2::Sha256`: the 32-byte digest of all
/// absorbed bytes is returned and the state starts over empty.
#[verifier::external_body]
fn sha256_finalize_reset(h: &mut Sha256State) -> (r: Vec<u8>)
    ensures
        r@ == sha256_of(absorbed(*old(h))),
        r@.len() == 32,
        absorbed(*final(h)) == Seq::<u8>::empty(),
{
    Digest::finalize_reset(&mut h.inner).to_vec()
}

/// The lowercase hexadecimal digit of a value below 16.
pub open spec fn hex_char(d: u8) -> char
    recommends
        d < 16,
{
    if d < 10 {
        ((d + 48) as u8) as char
    } else {
        ((d + 87) as u8) as char
    }
}

/// Two lowercase hexadecimal digits per byte, most significant first.
pub open spec fn hex_of(b: Seq<u8>) -> Seq<char>
    decreases b.len(),
{
    if b.len() == 0 {
        Seq::empty()
    } else {
        hex_of(b.drop_last()) + seq![hex_char(b.last() / 16), hex_char(b.last() % 16)]
    }
}

/// The lowercase hexadecimal digit string of a value below 16.
fn hex_digit(d: u8) -> (r: &'static str)
    requires
        d < 16,
    ensures
        r@ == seq![hex_char(d)],
{
    proof {
        reveal_strlit("0");
        reveal_strlit("1");
        reveal_strlit("2");
        reveal_strlit("3");
        reveal_strlit("4");
        reveal_strlit("5");
        reveal_strlit("6");
        reveal_strlit("7");
        reveal_strlit("8");
        reveal_strlit("9");
        reveal_strlit("a");
        reveal_strlit("b");
        reveal_strlit("c");
        reveal_strlit("d");
        reveal_strlit("e");
        reveal_strlit("f");
    }
    match d {
        0 => "0",
        1 => "1",
        2 => "2",
        3 => "3",
        4 => "4",
        5 => "5",
        6 => "6",
        7 => "7",
        8 => "8",
        9 => "9",
        10 => "a",
        11 => "b",
        12 => "c",
        13 => "d",
        14 => "e",
        _ => "f",
    }
}

/// Encodes bytes as lowercase hexadecimal, two digits per byte.
pub fn to_lower_hex(b: &[u8]) -> (r: String)
    ensures
        r@ == hex_of(b@),
{
    let mut s = String::new();
    let mut i: usize = 0;
    while i < b.len()
        invariant
            i <= b@.len(),
            s@ == hex_of(b@.subrange(0, i as int)),
        decreases b@.len() - i,
    {
        let x = b[i];
        s.append(hex_digit(x / 16));
        s.append(hex_digit(x % 16));
        proof {
            let p = b@.subrange(0, i + 1);
            assert(p.drop_last() =~= b@.subrange(0, i as int));
            assert(p.last() == x);
        }
        i = i + 1;
    }
    assert(b@.subrange(0, b@.len() as int) =~= b@);
    s
}

/// An incremental SHA-256 accumulator. Its view is the byte sequence fed so far.
pub struct Accumulator {
    state: Sha256State,
}

impl View for Accumulator {
    type V = Seq<u8>;

    closed spec fn view(&self) -> Seq<u8> {
        absorbed(self.state)
    }
}

impl Accumulator {
    /// A fresh accumulator that has been fed nothing.
    pub fn new() -> (r: Accumulator)
        ensures
            r@ == Seq::<u8>::empty(),
    {
        Accumulator { state: sha256_new() }
    }

    /// Folds one buffer into the running state, after everything fed before.
    pub fn update(&mut self, data: &[u8])
        ensures
            final(self)@ == old(self)@ + data@,
    {
        sha256_update(&mut self.state, data);
    }

    /// Returns the lowercase hexadecimal digest of everything fed so far and
    /// starts over with nothing fed.
    pub fn take_digest_hex(&mut self) -> (r: String)
        ensures
            r@ == hex_of(sha256_of(old(self)@)),
            final(self)@ == Seq::<u8>::empty(),
    {
        let out = sha256_finalize_reset(&mut self.state);
        to_lower_hex(out.as_slice())
    }

    /// Consumes the accumulator and returns the lowercase hexadecimal digest of
    /// everything it was fed.
    pub fn finalize_hex(self) -> (r: String)
        ensures
            r@ == hex_of(sha256_of(self@)),
    {
        let mut st = self.state;
        let out = sha256_finalize_reset(&mut st);
        to_lower_hex(out.as_slice())
    }
}

/// The lowercase hexadecimal SHA-256 digest of a whole byte buffer.
pub fn digest_hex(data: &[u8]) -> (r: String)
    ensures
        r@ == hex_of(sha256_of(data@)),
{
    let mut acc = Accumulator::new();
    acc.update(data);
    assert(Seq::<u8>::empty() + data@ =~= data@);
    acc.finalize_hex()
}

} // verus!
