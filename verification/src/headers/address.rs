//! Address-list header values: single mailboxes, named groups, and lists.

use vstd::prelude::*;

verus! {

use vstd::string::StringSliceAdditionalSpecFns;
use crate::bytestr::str_vec;
use crate::headers::{Header, crlf, put_crlf};

/// One mailbox: an optional display name and an address.
pub struct EmailAddress {
    pub name: Option<Vec<u8>>,
    pub email: Vec<u8>,
}

/// A named group of addresses.
pub struct GroupedAddresses {
    pub name: Vec<u8>,
    pub addresses: Vec<Address>,
}

/// An address header value.
pub enum Address {
    Address(EmailAddress),
    Group(GroupedAddresses),
    List(Vec<Address>),
}

/// The rendering of one mailbox: `"name" <email>`, or the bare address.
pub open spec fn email_render(e: EmailAddress) -> Seq<u8> {
    match e.name {
        Some(n) => seq![34u8] + n@ + seq![34u8, 32u8, 60u8] + e.email@ + seq![62u8],
        None => e.email@,
    }
}

/// The rendering of one address value, without the final CRLF.
pub open spec fn addr_render(a: Address) -> Seq<u8>
    decreases a, 0nat, 0nat,
{
    match a {
        Address::Address(e) => email_render(e),
        Address::Group(g) => g.name@ + seq![58u8, 32u8] + list_render(g.addresses@, 0) + seq![
            59u8,
        ],
        Address::List(items) => list_render(items@, 0),
    }
}

/// The rendering of the items of a list from position `i` on,
/// separated by `, `.
pub open spec fn list_render(items: Seq<Address>, i: int) -> Seq<u8>
    decreases items, items.len() - i, 1nat,
{
    if 0 <= i < items.len() {
        (if i > 0 {
            seq![44u8, 32u8]
        } else {
            Seq::<u8>::empty()
        }) + addr_render(items[i]) + list_render(items, i + 1)
    } else {
        Seq::empty()
    }
}

impl Address {
    /// One mailbox with a display name.
    pub fn new_address(name: &str, email: &str) -> (r: Address)
        ensures
            r matches Address::Address(e) && e.name matches Some(n) && n@ == name.spec_bytes()
                && e.email@ == email.spec_bytes(),
    {
        Address::Address(EmailAddress { name: Some(str_vec(name)), email: str_vec(email) })
    }

    /// One bare address without a display name.
    pub fn new_bare_address(email: &str) -> (r: Address)
        ensures
            r matches Address::Address(e) && e.name is None && e.email@ == email.spec_bytes(),
    {
        Address::Address(EmailAddress { name: None, email: str_vec(email) })
    }

    /// A named group of addresses.
    pub fn new_group(name: &str, addresses: Vec<Address>) -> (r: Address)
        ensures
            r matches Address::Group(g) && g.name@ == name.spec_bytes() && g.addresses
                == addresses,
    {
        Address::Group(GroupedAddresses { name: str_vec(name), addresses })
    }

    /// A list of addresses or groups.
    pub fn new_list(items: Vec<Address>) -> (r: Address)
        ensures
            r matches Address::List(l) && l == items,
    {
        Address::List(items)
    }
}

/// Append the rendering of one address value.
fn write_address(a: &Address, out: &mut Vec<u8>)
    ensures
        final(out)@ == old(out)@ + addr_render(*a),
    decreases *a, 1nat,
{
    match a {
        Address::Address(e) => {
            match &e.name {
                Some(n) => {
                    out.push(34);
                    out.extend_from_slice(n.as_slice());
                    out.push(34);
                    out.push(32);
                    out.push(60);
                    out.extend_from_slice(e.email.as_slice());
                    out.push(62);
                    proof {
                        assert(out@ =~= old(out)@ + addr_render(*a));
                    }
                },
                None => {
                    out.extend_from_slice(e.email.as_slice());
                },
            }
        },
        Address::Group(g) => {
            out.extend_from_slice(g.name.as_slice());
            out.push(58);
            out.push(32);
            write_list(&g.addresses, out);
            out.push(59);
            proof {
                assert(out@ =~= old(out)@ + addr_render(*a));
            }
        },
        Address::List(items) => {
            write_list(items, out);
        },
    }
}

/// Append the rendering of a list of address values.
fn write_list(items: &Vec<Address>, out: &mut Vec<u8>)
    ensures
        final(out)@ == old(out)@ + list_render(items@, 0),
    decreases items@, 0nat,
{
    let mut i: usize = 0;
    while i < items.len()
        invariant
            0 <= i <= items@.len(),
            old(out)@ + list_render(items@, 0) == out@ + list_render(items@, i as int),
        decreases items@.len() - i,
    {
        let ghost out_pre = out@;
        if i > 0 {
            out.push(44);
            out.push(32);
        }
        write_address(&items[i], out);
        proof {
            if i > 0 {
                assert(out@ =~= out_pre + (seq![44u8, 32u8] + addr_render(items@[i as int])));
            } else {
                assert(out@ =~= out_pre + (Seq::<u8>::empty() + addr_render(items@[i as int])));
            }
        }
        i = i + 1;
    }
}

impl Header for Address {
    open spec fn rendered(&self, written: int) -> Seq<u8> {
        addr_render(*self) + crlf()
    }

    fn write_header(&self, out: &mut Vec<u8>, written: usize) -> (r: usize) {
        write_address(self, out);
        put_crlf(out);
        proof {
            assert(out@ =~= old(out)@ + self.rendered(written as int));
        }
        0
    }

    proof fn rendered_line_terminated(&self, written: int) {
    }
}

} // verus!
