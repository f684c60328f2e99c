//! Names of the supported block chains, with case-insensitive parsing and
//! the wire codec that carries the display name as a string.

use vstd::prelude::*;
use vstd::utf8::encode_utf8;

use crate::error::Error;
use crate::serial::{varint_bytes, Decodable, Encodable};

verus! {

/// A supported block-chain network.
#[derive(Debug, PartialEq, Eq, Hash, Clone, Copy, Structural)]
pub enum NetworkName {
    DarkFi,
    Solana,
    Bitcoin,
    Ethereum,
}

impl View for NetworkName {
    type V = NetworkName;

    open spec fn view(&self) -> NetworkName {
        *self
    }
}

impl DeepView for NetworkName {
    type V = NetworkName;

    open spec fn deep_view(&self) -> NetworkName {
        *self
    }
}

/// The ASCII lowercase of one byte; other bytes pass through.
pub open spec fn ascii_lower(c: u8) -> u8 {
    if 65 <= c && c <= 90 {
        (c + 32) as u8
    } else {
        c
    }
}

/// The ASCII lowercase of a byte string.
pub open spec fn lower_bytes(s: Seq<u8>) -> Seq<u8> {
    s.map_values(|c: u8| ascii_lower(c))
}

fn lower_byte(c: u8) -> (r: u8)
    ensures
        r == ascii_lower(c),
{
    if 65 <= c && c <= 90 {
        c + 32
    } else {
        c
    }
}

/// Whether `b`, ASCII-lowercased, spells `w`.
fn lower_eq(b: &[u8], w: &[u8]) -> (r: bool)
    ensures
        r == (lower_bytes(b@) == w@),
{
    if b.len() != w.len() {
        proof {
            assert(lower_bytes(b@).len() == b@.len());
        }
        return false;
    }
    let mut i: usize = 0;
    while i < b.len()
        invariant
            i <= b@.len(),
            b@.len() == w@.len(),
            forall|j: int| 0 <= j < i ==> ascii_lower(b@[j]) == w@[j],
        decreases b@.len() - i,
    {
        let c = lower_byte(*vstd::slice::slice_index_get(b, i));
        if c != *vstd::slice::slice_index_get(w, i) {
            proof {
                assert(lower_bytes(b@)[i as int] == ascii_lower(b@[i as int]));
            }
            return false;
        }
        i = i + 1;
    }
    proof {
        assert(lower_bytes(b@) =~= w@);
    }
    true
}

impl NetworkName {
    /// The network's display name.
    pub open spec fn name_spec(&self) -> Seq<char> {
        match *self {
            NetworkName::DarkFi => "DarkFi"@,
            NetworkName::Solana => "Solana"@,
            NetworkName::Bitcoin => "Bitcoin"@,
            NetworkName::Ethereum => "Ethereum"@,
        }
    }

    /// The network's display name.
    pub fn as_str(&self) -> (r: &'static str)
        ensures
            r@ == self.name_spec(),
    {
        match self {
            NetworkName::DarkFi => "DarkFi",
            NetworkName::Solana => "Solana",
            NetworkName::Bitcoin => "Bitcoin",
            NetworkName::Ethereum => "Ethereum",
        }
    }

    /// Which network a name's bytes denote: the short or long form of each
    /// network, matched on the ASCII-lowercased bytes.
    pub open spec fn from_str_spec(bytes: Seq<u8>) -> Result<NetworkName, Error> {
        let l = lower_bytes(bytes);
        if l == seq!['d' as u8, 'r' as u8, 'k' as u8] || l == seq![
            'd' as u8,
            'a' as u8,
            'r' as u8,
            'k' as u8,
            'f' as u8,
            'i' as u8,
        ] {
            Ok(NetworkName::DarkFi)
        } else if l == seq!['s' as u8, 'o' as u8, 'l' as u8] || l == seq![
            's' as u8,
            'o' as u8,
            'l' as u8,
            'a' as u8,
            'n' as u8,
            'a' as u8,
        ] {
            Ok(NetworkName::Solana)
        } else if l == seq!['b' as u8, 't' as u8, 'c' as u8] || l == seq![
            'b' as u8,
            'i' as u8,
            't' as u8,
            'c' as u8,
            'o' as u8,
            'i' as u8,
            'n' as u8,
        ] {
            Ok(NetworkName::Bitcoin)
        } else if l == seq!['e' as u8, 't' as u8, 'h' as u8] || l == seq![
            'e' as u8,
            't' as u8,
            'h' as u8,
            'e' as u8,
            'r' as u8,
            'e' as u8,
            'u' as u8,
            'm' as u8,
        ] {
            Ok(NetworkName::Ethereum)
        } else {
            Err(Error::UnsupportedCoinNetwork)
        }
    }

    /// Parses a network name, ASCII-case-insensitively.
    pub fn from_str(s: &str) -> (r: Result<NetworkName, Error>)
        ensures
            r == Self::from_str_spec(encode_utf8(s@)),
    {
        let b = s.as_bytes();
        let drk: [u8; 3] = [100, 114, 107];
        let darkfi: [u8; 6] = [100, 97, 114, 107, 102, 105];
        let sol: [u8; 3] = [115, 111, 108];
        let solana: [u8; 6] = [115, 111, 108, 97, 110, 97];
        let btc: [u8; 3] = [98, 116, 99];
        let bitcoin: [u8; 7] = [98, 105, 116, 99, 111, 105, 110];
        let eth: [u8; 3] = [101, 116, 104];
        let ethereum: [u8; 8] = [101, 116, 104, 101, 114, 101, 117, 109];
        proof {
            assert(drk@ =~= seq!['d' as u8, 'r' as u8, 'k' as u8]);
            assert(darkfi@ =~= seq![
                'd' as u8,
                'a' as u8,
                'r' as u8,
                'k' as u8,
                'f' as u8,
                'i' as u8,
            ]);
            assert(sol@ =~= seq!['s' as u8, 'o' as u8, 'l' as u8]);
            assert(solana@ =~= seq![
                's' as u8,
                'o' as u8,
                'l' as u8,
                'a' as u8,
                'n' as u8,
                'a' as u8,
            ]);
            assert(btc@ =~= seq!['b' as u8, 't' as u8, 'c' as u8]);
            assert(bitcoin@ =~= seq![
                'b' as u8,
                'i' as u8,
                't' as u8,
                'c' as u8,
                'o' as u8,
                'i' as u8,
                'n' as u8,
            ]);
            assert(eth@ =~= seq!['e' as u8, 't' as u8, 'h' as u8]);
            assert(ethereum@ =~= seq![
                'e' as u8,
                't' as u8,
                'h' as u8,
                'e' as u8,
                'r' as u8,
                'e' as u8,
                'u' as u8,
                'm' as u8,
            ]);
        }
        if lower_eq(b, drk.as_slice()) || lower_eq(b, darkfi.as_slice()) {
            Ok(NetworkName::DarkFi)
        } else if lower_eq(b, sol.as_slice()) || lower_eq(b, solana.as_slice()) {
            Ok(NetworkName::Solana)
        } else if lower_eq(b, btc.as_slice()) || lower_eq(b, bitcoin.as_slice()) {
            Ok(NetworkName::Bitcoin)
        } else if lower_eq(b, eth.as_slice()) || lower_eq(b, ethereum.as_slice()) {
            Ok(NetworkName::Ethereum)
        } else {
            Err(Error::UnsupportedCoinNetwork)
        }
    }
}

/// Parsing a network's own display name yields the network back.
pub proof fn lemma_name_round(v: NetworkName)
    ensures
        NetworkName::from_str_spec(encode_utf8(v.name_spec())) == Ok::<NetworkName, Error>(v),
{
    broadcast use vstd::utf8::is_ascii_chars_encode_utf8;

    reveal_strlit("DarkFi");
    reveal_strlit("Solana");
    reveal_strlit("Bitcoin");
    reveal_strlit("Ethereum");
    let chars = v.name_spec();
    assert(vstd::utf8::is_ascii_chars(chars)) by {
        match v {
            NetworkName::DarkFi => {
                assert(chars =~= seq!['D', 'a', 'r', 'k', 'F', 'i']);
            },
            NetworkName::Solana => {
                assert(chars =~= seq!['S', 'o', 'l', 'a', 'n', 'a']);
            },
            NetworkName::Bitcoin => {
                assert(chars =~= seq!['B', 'i', 't', 'c', 'o', 'i', 'n']);
            },
            NetworkName::Ethereum => {
                assert(chars =~= seq!['E', 't', 'h', 'e', 'r', 'e', 'u', 'm']);
            },
        }
    }
    let bytes = encode_utf8(chars);
    assert(bytes.len() == chars.len() && forall|i: int|
        0 <= i < chars.len() ==> bytes[i] == chars[i] as u8);
    match v {
        NetworkName::DarkFi => {
            assert(lower_bytes(bytes) =~= seq![
                'd' as u8,
                'a' as u8,
                'r' as u8,
                'k' as u8,
                'f' as u8,
                'i' as u8,
            ]);
        },
        NetworkName::Solana => {
            assert(lower_bytes(bytes) =~= seq![
                's' as u8,
                'o' as u8,
                'l' as u8,
                'a' as u8,
                'n' as u8,
                'a' as u8,
            ]);
        },
        NetworkName::Bitcoin => {
            assert(lower_bytes(bytes) =~= seq![
                'b' as u8,
                'i' as u8,
                't' as u8,
                'c' as u8,
                'o' as u8,
                'i' as u8,
                'n' as u8,
            ]);
        },
        NetworkName::Ethereum => {
            assert(lower_bytes(bytes) =~= seq![
                'e' as u8,
                't' as u8,
                'h' as u8,
                'e' as u8,
                'r' as u8,
                'e' as u8,
                'u' as u8,
                'm' as u8,
            ]);
        },
    }
}

impl Encodable for NetworkName {
    open spec fn enc(&self) -> Seq<u8> {
        varint_bytes(encode_utf8(self.name_spec()).len() as u64) + encode_utf8(self.name_spec())
    }

    open spec fn enc_fits(&self) -> bool {
        encode_utf8(self.name_spec()).len() <= u64::MAX
    }

    fn encode(&self, s: &mut Vec<u8>) -> (n: usize) {
        let name: String = self.as_str().to_owned();
        name.encode(s)
    }
}

impl Decodable for NetworkName {
    open spec fn dec(data: Seq<u8>) -> Result<(Self::V, int), Error> {
        match <String as Decodable>::dec(data) {
            Ok((chars, k)) => match NetworkName::from_str_spec(encode_utf8(chars)) {
                Ok(n) => Ok((n, k)),
                Err(e) => Err(e),
            },
            Err(e) => Err(e),
        }
    }

    fn decode(data: &[u8], pos: usize) -> (r: Result<(Self, usize), Error>) {
        match String::decode(data, pos) {
            Ok((st, end)) => match Self::from_str(st.as_str()) {
                Ok(n) => Ok((n, end)),
                Err(e) => Err(e),
            },
            Err(e) => Err(e),
        }
    }

    proof fn lemma_enc_dec(v: Self, rest: Seq<u8>) {
        broadcast use vstd::utf8::encode_utf8_valid_utf8, vstd::utf8::encode_utf8_decode_utf8;

        crate::serial::lemma_bytes_dec(encode_utf8(v.name_spec()), rest);
        assert(varint_bytes(encode_utf8(v.name_spec()).len() as u64) + encode_utf8(v.name_spec())
            + rest =~= v.enc() + rest);
        lemma_name_round(v);
    }
}

} // verus!
