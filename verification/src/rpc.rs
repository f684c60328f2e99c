//! The JSON-RPC server's dispatch decisions: what each method replies.
//! Listening, TLS and the HTTP plumbing are the runtime's job; the reply
//! chosen for a request is decided here.

use vstd::prelude::*;
use vstd::utf8::encode_utf8;

verus! {

/// The reply one JSON-RPC method produces.
#[derive(Debug, Clone, Copy, PartialEq, Eq)]
pub enum RpcReply {
    /// A text result.
    Text(&'static str),
    /// A null result.
    Null,
    /// The method is not part of the interface.
    UnknownMethod,
}

/// Whether two strings spell the same characters.
fn str_eq(a: &str, b: &str) -> (r: bool)
    ensures
        r == (a@ == b@),
{
    broadcast use vstd::utf8::encode_utf8_decode_utf8;

    let ab = a.as_bytes();
    let bb = b.as_bytes();
    if ab.len() != bb.len() {
        proof {
            if a@ == b@ {
                assert(encode_utf8(a@) == encode_utf8(b@));
            }
        }
        return false;
    }
    let mut i: usize = 0;
    while i < ab.len()
        invariant
            i <= ab@.len(),
            ab@.len() == bb@.len(),
            ab@ == encode_utf8(a@),
            bb@ == encode_utf8(b@),
            forall|j: int| 0 <= j < i ==> ab@[j] == bb@[j],
        decreases ab@.len() - i,
    {
        if *vstd::slice::slice_index_get(ab, i) != *vstd::slice::slice_index_get(bb, i) {
            proof {
                if a@ == b@ {
                    assert(encode_utf8(a@) == encode_utf8(b@));
                }
            }
            return false;
        }
        i = i + 1;
    }
    proof {
        assert(encode_utf8(a@) =~= encode_utf8(b@));
        assert(vstd::utf8::decode_utf8(encode_utf8(a@)) == a@);
        assert(vstd::utf8::decode_utf8(encode_utf8(b@)) == b@);
    }
    true
}

/// The reply for one method of the node's RPC interface: the greeting and
/// path probes answer with fixed text, wallet creation reports the attempt,
/// the info and stop calls answer null, and anything else is unknown.
pub fn rpc_method_reply(method: &str) -> (r: RpcReply)
    ensures
        method@ == "say_hello"@ ==> r is Text && r->Text_0@ == "Hello World!"@,
        method@ == "test_path"@ ==> r is Text && r->Text_0@ == "TEST PATH!"@,
        method@ == "get_cash_key"@ ==> r is Text && r->Text_0@ == "Getting cashier key..."@,
        method@ == "new_wallet"@ ==> r is Text && r->Text_0@ == "Attempted wallet generation"@,
        method@ == "new_cashier_wallet"@ ==> r is Text && r->Text_0@ == "Attempted wallet generation"@,
        method@ == "get_info"@ ==> r == RpcReply::Null,
        method@ == "stop"@ ==> r == RpcReply::Null,
        (method@ != "say_hello"@ && method@ != "test_path"@ && method@ != "get_cash_key"@
            && method@ != "new_wallet"@ && method@ != "new_cashier_wallet"@ && method@
            != "get_info"@ && method@ != "stop"@) ==> r == RpcReply::UnknownMethod,
{
    proof {
        reveal_strlit("say_hello");
        reveal_strlit("test_path");
        reveal_strlit("get_cash_key");
        reveal_strlit("new_wallet");
        reveal_strlit("new_cashier_wallet");
        reveal_strlit("get_info");
        reveal_strlit("stop");
        assert("say_hello"@ != "test_path"@) by {
            assert("say_hello"@[0] != "test_path"@[0]);
        }
        assert("say_hello"@ != "get_cash_key"@) by {
            assert("say_hello"@.len() != "get_cash_key"@.len());
        }
        assert("say_hello"@ != "new_wallet"@) by {
            assert("say_hello"@.len() != "new_wallet"@.len());
        }
        assert("say_hello"@ != "new_cashier_wallet"@) by {
            assert("say_hello"@.len() != "new_cashier_wallet"@.len());
        }
        assert("say_hello"@ != "get_info"@) by {
            assert("say_hello"@.len() != "get_info"@.len());
        }
        assert("say_hello"@ != "stop"@) by {
            assert("say_hello"@.len() != "stop"@.len());
        }
        assert("test_path"@ != "get_cash_key"@) by {
            assert("test_path"@.len() != "get_cash_key"@.len());
        }
        assert("test_path"@ != "new_wallet"@) by {
            assert("test_path"@.len() != "new_wallet"@.len());
        }
        assert("test_path"@ != "new_cashier_wallet"@) by {
            assert("test_path"@.len() != "new_cashier_wallet"@.len());
        }
        assert("test_path"@ != "get_info"@) by {
            assert("test_path"@.len() != "get_info"@.len());
        }
        assert("test_path"@ != "stop"@) by {
            assert("test_path"@.len() != "stop"@.len());
        }
        assert("get_cash_key"@ != "new_wallet"@) by {
            assert("get_cash_key"@.len() != "new_wallet"@.len());
        }
        assert("get_cash_key"@ != "new_cashier_wallet"@) by {
            assert("get_cash_key"@.len() != "new_cashier_wallet"@.len());
        }
        assert("get_cash_key"@ != "get_info"@) by {
            assert("get_cash_key"@.len() != "get_info"@.len());
        }
        assert("get_cash_key"@ != "stop"@) by {
            assert("get_cash_key"@.len() != "stop"@.len());
        }
        assert("new_wallet"@ != "new_cashier_wallet"@) by {
            assert("new_wallet"@.len() != "new_cashier_wallet"@.len());
        }
        assert("new_wallet"@ != "get_info"@) by {
            assert("new_wallet"@.len() != "get_info"@.len());
        }
        assert("new_wallet"@ != "stop"@) by {
            assert("new_wallet"@.len() != "stop"@.len());
        }
        assert("new_cashier_wallet"@ != "get_info"@) by {
            assert("new_cashier_wallet"@.len() != "get_info"@.len());
        }
        assert("new_cashier_wallet"@ != "stop"@) by {
            assert("new_cashier_wallet"@.len() != "stop"@.len());
        }
        assert("get_info"@ != "stop"@) by {
            assert("get_info"@.len() != "stop"@.len());
        }
    }
    if str_eq(method, "say_hello") {
        RpcReply::Text("Hello World!")
    } else if str_eq(method, "test_path") {
        RpcReply::Text("TEST PATH!")
    } else if str_eq(method, "get_cash_key") {
        RpcReply::Text("Getting cashier key...")
    } else if str_eq(method, "new_wallet") {
        RpcReply::Text("Attempted wallet generation")
    } else if str_eq(method, "new_cashier_wallet") {
        RpcReply::Text("Attempted wallet generation")
    } else if str_eq(method, "get_info") {
        RpcReply::Null
    } else if str_eq(method, "stop") {
        RpcReply::Null
    } else {
        RpcReply::UnknownMethod
    }
}

} // verus!
