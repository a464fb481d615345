//! The rules of a node's configuration that do not depend on the network
//! stack: the default Raft port and the shape of a `--peer` argument.

use vstd::prelude::*;

verus! {

/// The Raft transport's default port: the client port offset by 10000,
/// wrapping around at 65536.
pub open spec fn default_raft_port(client_port: u16) -> u16 {
    ((client_port + 10000) % 65536) as u16
}

/// The Raft transport's port when none is configured.
pub fn raft_port(client_port: u16) -> (res: u16)
    ensures
        res == default_raft_port(client_port),
{
    client_port.wrapping_add(10000)
}

/// The position of the first `=` in a text, if any.
pub open spec fn first_equals(s: Seq<char>) -> Option<int> {
    if exists|i: int| 0 <= i < s.len() && s[i] == '=' {
        Some(choose|i: int| 0 <= i < s.len() && s[i] == '=' && forall|j: int| 0 <= j < i ==> s[j] != '=')
    } else {
        None
    }
}

/// The message for a `--peer` argument without `=`.
pub open spec fn missing_separator_message(raw: Seq<char>) -> Seq<char> {
    "expected `id=host:port`, got `"@ + raw + "`"@
}

/// Split a `--peer` argument at its first `=` into the peer's id and its
/// address text.
pub fn split_peer(raw: &str) -> (res: Result<(String, String), String>)
    ensures
        match first_equals(raw@) {
            Some(i) => res matches Ok((id, addr)) && id@ == raw@.subrange(0, i) && addr@ == raw@.subrange(
                i + 1,
                raw@.len() as int,
            ),
            None => res matches Err(m) && m@ == missing_separator_message(raw@),
        },
{
    let n = raw.unicode_len();
    let mut i: usize = 0;
    while i < n
        invariant
            i <= n,
            n == raw@.len(),
            forall|j: int| 0 <= j < i ==> raw@[j] != '=',
        decreases n - i,
    {
        if raw.get_char(i) == '=' {
            proof {
                let k = first_equals(raw@)->0;
                assert(0 <= k < raw@.len() && raw@[k] == '=' && forall|j: int| 0 <= j < k ==> raw@[j] != '=');
                assert(k == i) by {
                    if k < i {
                        assert(raw@[k] != '=');
                    } else if k > i {
                        assert(raw@[i as int] != '=');
                    }
                }
            }
            let id = String::from_str(raw.substring_char(0, i));
            let addr = String::from_str(raw.substring_char(i + 1, n));
            return Ok((id, addr));
        }
        i = i + 1;
    }
    let mut msg = String::from_str("expected `id=host:port`, got `");
    msg.append(raw);
    msg.append("`");
    Err(msg)
}

} // verus!
