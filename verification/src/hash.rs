//! The fixed-length digest type used for piece hashes and Merkle roots.

use vstd::prelude::*;
use vstd::string::StringExecFns;

verus! {

/// A 20-byte digest identifying one piece of the described content, or the
/// root of a Merkle hash tree over the pieces.
#[derive(Clone, Copy, Debug, PartialEq, Eq)]
pub struct Sha1Hash {
    pub hash: [u8; 20],
}

/// Rejects a buffer whose length is not exactly 20 bytes; carries the length
/// that was offered.
#[derive(Clone, Copy, Debug, PartialEq, Eq, Structural)]
pub struct InvalidHashLength(pub usize);

impl View for Sha1Hash {
    type V = Seq<u8>;

    open spec fn view(&self) -> Seq<u8> {
        self.hash@
    }
}

impl DeepView for Sha1Hash {
    type V = Seq<u8>;

    open spec fn deep_view(&self) -> Seq<u8> {
        self.hash@
    }
}

/// The lowercase hexadecimal character for a value below 16.
pub open spec fn hex_digit(n: int) -> char {
    if n == 0 {
        '0'
    } else if n == 1 {
        '1'
    } else if n == 2 {
        '2'
    } else if n == 3 {
        '3'
    } else if n == 4 {
        '4'
    } else if n == 5 {
        '5'
    } else if n == 6 {
        '6'
    } else if n == 7 {
        '7'
    } else if n == 8 {
        '8'
    } else if n == 9 {
        '9'
    } else if n == 10 {
        'a'
    } else if n == 11 {
        'b'
    } else if n == 12 {
        'c'
    } else if n == 13 {
        'd'
    } else if n == 14 {
        'e'
    } else {
        'f'
    }
}

/// Lowercase hexadecimal rendering of a byte sequence: two characters per
/// byte, high digit first, no separators.
pub open spec fn spec_hex(bytes: Seq<u8>) -> Seq<char>
    decreases bytes.len(),
{
    if bytes.len() == 0 {
        Seq::empty()
    } else {
        seq![hex_digit((bytes[0] / 16) as int), hex_digit((bytes[0] % 16) as int)] + spec_hex(bytes.drop_first())
    }
}

proof fn lemma_spec_hex_push(bytes: Seq<u8>, b: u8)
    ensures
        spec_hex(bytes.push(b)) == spec_hex(bytes) + seq![
            hex_digit((b / 16) as int),
            hex_digit((b % 16) as int),
        ],
    decreases bytes.len(),
{
    if bytes.len() == 0 {
        assert(bytes.push(b).drop_first() =~= Seq::<u8>::empty());
        assert(spec_hex(Seq::<u8>::empty()) =~= Seq::<char>::empty());
        assert(spec_hex(bytes.push(b)) =~= spec_hex(bytes) + seq![
            hex_digit((b / 16) as int),
            hex_digit((b % 16) as int),
        ]);
    } else {
        assert(bytes.push(b).drop_first() =~= bytes.drop_first().push(b));
        lemma_spec_hex_push(bytes.drop_first(), b);
        assert(spec_hex(bytes.push(b)) =~= spec_hex(bytes) + seq![
            hex_digit((b / 16) as int),
            hex_digit((b % 16) as int),
        ]);
    }
}

/// True of the sixteen characters that may appear in the canonical digest
/// rendering.
pub open spec fn is_lower_hex_char(c: char) -> bool {
    ('0' <= c && c <= '9') || ('a' <= c && c <= 'f')
}

/// The hexadecimal rendering of a byte sequence has two characters per byte,
/// each a lowercase hexadecimal digit, with the two characters of byte `i`
/// standing at positions `2 * i` and `2 * i + 1`.
pub proof fn lemma_spec_hex_chars(bytes: Seq<u8>)
    ensures
        spec_hex(bytes).len() == 2 * bytes.len(),
        forall|i: int|
            0 <= i < bytes.len() ==> spec_hex(bytes)[2 * i] == hex_digit((bytes[i] / 16) as int)
                && spec_hex(bytes)[2 * i + 1] == hex_digit((bytes[i] % 16) as int),
        forall|j: int| 0 <= j < spec_hex(bytes).len() ==> is_lower_hex_char(#[trigger] spec_hex(
            bytes,
        )[j]),
    decreases bytes.len(),
{
    if bytes.len() > 0 {
        lemma_spec_hex_chars(bytes.drop_first());
        assert forall|i: int| 0 <= i < bytes.len() implies spec_hex(bytes)[2 * i] == hex_digit(
            (bytes[i] / 16) as int,
        ) && spec_hex(bytes)[2 * i + 1] == hex_digit((bytes[i] % 16) as int) by {
            if i > 0 {
                assert(spec_hex(bytes)[2 * i] == spec_hex(bytes.drop_first())[2 * (i - 1)]);
                assert(spec_hex(bytes)[2 * i + 1] == spec_hex(bytes.drop_first())[2 * (i - 1)
                    + 1]);
                assert(bytes.drop_first()[i - 1] == bytes[i]);
            }
        }
    }
}

fn hex_digit_char(n: u8) -> (r: &'static str)
    requires
        n < 16,
    ensures
        r@ == seq![hex_digit(n as int)],
{
    if n == 0 {
        proof {
            reveal_strlit("0");
            assert("0"@ =~= seq![hex_digit(0)]);
        }
        "0"
    } else if n == 1 {
        proof {
            reveal_strlit("1");
            assert("1"@ =~= seq![hex_digit(1)]);
        }
        "1"
    } else if n == 2 {
        proof {
            reveal_strlit("2");
            assert("2"@ =~= seq![hex_digit(2)]);
        }
        "2"
    } else if n == 3 {
        proof {
            reveal_strlit("3");
            assert("3"@ =~= seq![hex_digit(3)]);
        }
        "3"
    } else if n == 4 {
        proof {
            reveal_strlit("4");
            assert("4"@ =~= seq![hex_digit(4)]);
        }
        "4"
    } else if n == 5 {
        proof {
            reveal_strlit("5");
            assert("5"@ =~= seq![hex_digit(5)]);
        }
        "5"
    } else if n == 6 {
        proof {
            reveal_strlit("6");
            assert("6"@ =~= seq![hex_digit(6)]);
        }
        "6"
    } else if n == 7 {
        proof {
            reveal_strlit("7");
            assert("7"@ =~= seq![hex_digit(7)]);
        }
        "7"
    } else if n == 8 {
        proof {
            reveal_strlit("8");
            assert("8"@ =~= seq![hex_digit(8)]);
        }
        "8"
    } else if n == 9 {
        proof {
            reveal_strlit("9");
            assert("9"@ =~= seq![hex_digit(9)]);
        }
        "9"
    } else if n == 10 {
        proof {
            reveal_strlit("a");
            assert("a"@ =~= seq![hex_digit(10)]);
        }
        "a"
    } else if n == 11 {
        proof {
            reveal_strlit("b");
            assert("b"@ =~= seq![hex_digit(11)]);
        }
        "b"
    } else if n == 12 {
        proof {
            reveal_strlit("c");
            assert("c"@ =~= seq![hex_digit(12)]);
        }
        "c"
    } else if n == 13 {
        proof {
            reveal_strlit("d");
            assert("d"@ =~= seq![hex_digit(13)]);
        }
        "d"
    } else if n == 14 {
        proof {
            reveal_strlit("e");
            assert("e"@ =~= seq![hex_digit(14)]);
        }
        "e"
    } else {
        proof {
            reveal_strlit("f");
            assert("f"@ =~= seq![hex_digit(15)]);
        }
        "f"
    }
}

impl Sha1Hash {
    /// Copies a byte slice into a digest.  Succeeds exactly when the slice
    /// holds 20 bytes; otherwise reports the offending length.
    pub fn from_buffer(s: &[u8]) -> (r: Result<Sha1Hash, InvalidHashLength>)
        ensures
            s@.len() == 20 ==> (r matches Ok(h) && h@ == s@),
            s@.len() != 20 ==> r == Err::<Sha1Hash, InvalidHashLength>(
                InvalidHashLength(s@.len() as usize),
            ),
    {
        if s.len() == 20 {
            let mut hash: [u8; 20] = [0u8; 20];
            let mut i: usize = 0;
            while i < 20
                invariant
                    i <= 20,
                    s@.len() == 20,
                    forall|j: int| 0 <= j < i ==> hash@[j] == s@[j],
                decreases 20 - i,
            {
                hash[i] = s[i];
                i += 1;
            }
            proof {
                assert(hash@ =~= s@);
            }
            Ok(Sha1Hash { hash })
        } else {
            Err(InvalidHashLength(s.len()))
        }
    }

    /// The canonical text form of the digest: exactly 40 characters of
    /// lowercase hexadecimal, two per byte, no separators.
    pub fn to_hex(&self) -> (r: String)
        ensures
            r@ == spec_hex(self@),
            r@.len() == 40,
    {
        let mut out = String::new();
        let mut i: usize = 0;
        while i < 20
            invariant
                i <= 20,
                out@ == spec_hex(self.hash@.take(i as int)),
            decreases 20 - i,
        {
            let b = self.hash[i];
            let ghost prefix = self.hash@.take(i as int);
            out.append(hex_digit_char(b / 16));
            out.append(hex_digit_char(b % 16));
            proof {
                lemma_spec_hex_push(prefix, b);
                assert(self.hash@.take(i + 1) =~= prefix.push(b));
                assert(out@ =~= spec_hex(self.hash@.take(i + 1)));
            }
            i += 1;
        }
        proof {
            assert(self.hash@.take(20) =~= self.hash@);
            lemma_spec_hex_chars(self@);
        }
        out
    }
}

} // verus!
