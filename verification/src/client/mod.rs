//! Process HTTP connections on the client.
use vstd::prelude::*;

pub mod decode;
pub mod encode;

use crate::bytes::{copy_bytes, eq_ignore_ascii_case, eq_ignore_case, text};
use crate::server::encode::{HeaderEntry, entries_view, values_view};

verus! {

/// Whether some header is named `name`, ignoring ASCII case.
pub open spec fn names_header(hs: Seq<(Seq<u8>, Seq<Seq<u8>>)>, name: Seq<u8>) -> bool {
    exists|i: int| 0 <= i < hs.len() && eq_ignore_case(#[trigger] hs[i].0, name)
}

/// Adds a `User-Agent` header with the value `agent` to a request that has none.
pub fn add_user_agent(headers: &mut Vec<HeaderEntry>, agent: &[u8])
    ensures
        names_header(entries_view(old(headers)@), text("user-agent")) ==> final(headers)@
            == old(headers)@,
        !names_header(entries_view(old(headers)@), text("user-agent")) ==> entries_view(
            final(headers)@,
        ) == entries_view(old(headers)@).push((text("user-agent"), seq![agent@])),
{
    let name = "user-agent".as_bytes();
    let n = headers.len();
    let mut i: usize = 0;
    while i < n
        invariant
            0 <= i <= n,
            n == headers@.len(),
            headers@ == old(headers)@,
            name@ == text("user-agent"),
            forall|k: int| 0 <= k < i ==> !eq_ignore_case(#[trigger] entries_view(headers@)[k].0, name@),
        decreases n - i,
    {
        if eq_ignore_ascii_case(headers[i].name.as_slice(), name) {
            assert(eq_ignore_case(entries_view(headers@)[i as int].0, name@));
            return;
        }
        i = i + 1;
    }
    let mut values: Vec<Vec<u8>> = Vec::new();
    values.push(copy_bytes(agent));
    assert(values_view(values@) =~= seq![agent@]);
    let entry = HeaderEntry { name: copy_bytes(name), values };
    assert(entry@ == (text("user-agent"), seq![agent@]));
    headers.push(entry);
    assert(headers@ == old(headers)@.push(entry));
    assert(entries_view(headers@) =~= entries_view(old(headers)@).push((text("user-agent"), seq![agent@])));
}

} // verus!
