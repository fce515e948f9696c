//! Output-script classification.
//!
//! The standard script templates are fixed byte patterns; classification
//! reads the raw script bytes.  The patterns follow the script forms of the
//! Bitcoin output types: pay-to-pubkey, pay-to-pubkey-hash,
//! pay-to-script-hash, the version-0 and version-1 witness programs, the
//! empty script, and data-carrier (`OP_RETURN`) scripts.

use vstd::prelude::*;

verus! {

/// The kind of an output script.
#[derive(PartialEq, Eq, Structural, Clone, Copy, Debug)]
pub enum ScriptType {
    P2PK,
    P2PKH,
    P2SH,
    P2WPKH,
    P2WSH,
    P2TR,
    Empty,
    OpReturn,
    Unknown,
}

/// Pay-to-pubkey: a pushed 65- or 33-byte key followed by `OP_CHECKSIG`.
pub open spec fn spec_is_p2pk(s: Seq<u8>) -> bool {
    ||| (s.len() == 67 && s[0] == 0x41 && s[66] == 0xac)
    ||| (s.len() == 35 && s[0] == 0x21 && s[34] == 0xac)
}

/// Pay-to-pubkey-hash:
/// `OP_DUP OP_HASH160 <20 bytes> OP_EQUALVERIFY OP_CHECKSIG`.
pub open spec fn spec_is_p2pkh(s: Seq<u8>) -> bool {
    s.len() == 25 && s[0] == 0x76 && s[1] == 0xa9 && s[2] == 0x14 && s[23] == 0x88 && s[24] == 0xac
}

/// Pay-to-script-hash: `OP_HASH160 <20 bytes> OP_EQUAL`.
pub open spec fn spec_is_p2sh(s: Seq<u8>) -> bool {
    s.len() == 23 && s[0] == 0xa9 && s[1] == 0x14 && s[22] == 0x87
}

/// Version-0 witness program with a 20-byte (key hash) payload.
pub open spec fn spec_is_p2wpkh(s: Seq<u8>) -> bool {
    s.len() == 22 && s[0] == 0x00 && s[1] == 0x14
}

/// Version-0 witness program with a 32-byte (script hash) payload.
pub open spec fn spec_is_p2wsh(s: Seq<u8>) -> bool {
    s.len() == 34 && s[0] == 0x00 && s[1] == 0x20
}

/// Version-1 witness program with a 32-byte payload (taproot).
pub open spec fn spec_is_p2tr(s: Seq<u8>) -> bool {
    s.len() == 34 && s[0] == 0x51 && s[1] == 0x20
}

/// A data-carrier script: it starts with `OP_RETURN`.
pub open spec fn spec_is_op_return(s: Seq<u8>) -> bool {
    s.len() > 0 && s[0] == 0x6a
}

/// The classification, first matching template winning.
pub open spec fn spec_classify(s: Seq<u8>) -> ScriptType {
    if spec_is_p2pk(s) {
        ScriptType::P2PK
    } else if spec_is_p2pkh(s) {
        ScriptType::P2PKH
    } else if spec_is_p2sh(s) {
        ScriptType::P2SH
    } else if spec_is_p2wpkh(s) {
        ScriptType::P2WPKH
    } else if spec_is_p2wsh(s) {
        ScriptType::P2WSH
    } else if spec_is_p2tr(s) {
        ScriptType::P2TR
    } else if s.len() == 0 {
        ScriptType::Empty
    } else if spec_is_op_return(s) {
        ScriptType::OpReturn
    } else {
        ScriptType::Unknown
    }
}

impl ScriptType {
    /// Classifies the raw bytes of an output script, first matching
    /// template winning.
    pub fn from(script: &[u8]) -> (r: ScriptType)
        ensures
            r == spec_classify(script@),
    {
        let n: usize = script.len();
        if (n == 67 && script[0] == 0x41 && script[66] == 0xac) || (n == 35 && script[0] == 0x21
            && script[34] == 0xac) {
            return ScriptType::P2PK;
        }
        if n == 25 && script[0] == 0x76 && script[1] == 0xa9 && script[2] == 0x14 && script[23]
            == 0x88 && script[24] == 0xac {
            return ScriptType::P2PKH;
        }
        if n == 23 && script[0] == 0xa9 && script[1] == 0x14 && script[22] == 0x87 {
            return ScriptType::P2SH;
        }
        if n == 22 && script[0] == 0x00 && script[1] == 0x14 {
            return ScriptType::P2WPKH;
        }
        if n == 34 && script[0] == 0x00 && script[1] == 0x20 {
            return ScriptType::P2WSH;
        }
        if n == 34 && script[0] == 0x51 && script[1] == 0x20 {
            return ScriptType::P2TR;
        }
        if n == 0 {
            return ScriptType::Empty;
        }
        if script[0] == 0x6a {
            return ScriptType::OpReturn;
        }
        ScriptType::Unknown
    }

    /// The name of this kind, as it is printed.
    pub open spec fn name_spec(self) -> Seq<char> {
        match self {
            ScriptType::P2PK => "P2PK"@,
            ScriptType::P2PKH => "P2PKH"@,
            ScriptType::P2SH => "P2SH"@,
            ScriptType::P2WPKH => "P2WPKH"@,
            ScriptType::P2WSH => "P2WSH"@,
            ScriptType::P2TR => "P2TR"@,
            ScriptType::Empty => "Empty"@,
            ScriptType::OpReturn => "OpReturn"@,
            ScriptType::Unknown => "UNKNOWN"@,
        }
    }

    /// Returns the printed name of this kind.
    pub fn to_string(&self) -> (r: String)
        ensures
            r@ == self.name_spec(),
    {
        match self {
            ScriptType::P2PK => "P2PK".to_owned(),
            ScriptType::P2PKH => "P2PKH".to_owned(),
            ScriptType::P2SH => "P2SH".to_owned(),
            ScriptType::P2WPKH => "P2WPKH".to_owned(),
            ScriptType::P2WSH => "P2WSH".to_owned(),
            ScriptType::P2TR => "P2TR".to_owned(),
            ScriptType::Empty => "Empty".to_owned(),
            ScriptType::OpReturn => "OpReturn".to_owned(),
            ScriptType::Unknown => "UNKNOWN".to_owned(),
        }
    }
}

} // verus!
