//! Multiaddresses, held in their textual form.
//!
//! A multiaddress is an ordered list of protocol components such as
//! `/ip4/192.0.2.7/tcp/4001/p2p/<peer-id>`. This crate consumes them but
//! does not build them: it parses the textual form lightly and can pop a
//! trailing `p2p` component to compare it with a peer id.

use vstd::prelude::*;
use vstd::string::StringSliceAdditionalSpecFns;
use vstd::string::StrSliceExecFns;
use crate::util::{last_byte_index, rfind_byte, bytes_eq};

verus! {

/// How a textual multiaddress splits at a trailing `p2p` component: the
/// part before `/p2p/`, and the component's value, or nothing when the
/// address does not end in such a component.
pub open spec fn split_p2p(s: Seq<u8>) -> Option<(Seq<u8>, Seq<u8>)> {
    let i = last_byte_index(s, 47);
    if i < 0 {
        None
    } else {
        let tok = s.skip(i + 1);
        let head = s.take(i);
        let j = last_byte_index(head, 47);
        if j < 0 {
            None
        } else if head.skip(j + 1) == "p2p".spec_bytes() && tok.len() > 0 {
            Some((head.take(j), tok))
        } else {
            None
        }
    }
}

/// A multiaddress: ASCII text, beginning with a slash.
#[derive(Debug)]
pub struct Multiaddr {
    text: Vec<u8>,
}

impl Multiaddr {
    /// The textual form.
    pub closed spec fn spec_text(&self) -> Seq<u8> {
        self.text@
    }

    /// Takes a textual form in: it must begin with a slash. The validation
    /// is shallow: component names and values are not checked here, since
    /// building and fully parsing multiaddresses belongs to the transport
    /// layer outside this crate. This type only carries the text and splits
    /// off a trailing `p2p` component.
    pub fn parse(text: Vec<u8>) -> (r: Option<Multiaddr>)
        ensures
            match r {
                Some(a) => a.spec_text() == text@ && text@.len() > 0 && text@[0] == 47,
                None => !(text@.len() > 0 && text@[0] == 47),
            },
    {
        if text.len() > 0 && text[0] == 47 {
            Some(Multiaddr { text })
        } else {
            None
        }
    }

    /// The textual form, as bytes.
    pub fn as_bytes(&self) -> (r: &[u8])
        ensures
            r@ == self.spec_text(),
    {
        self.text.as_slice()
    }

    /// A copy of this address.
    pub fn duplicate(&self) -> (r: Multiaddr)
        ensures
            r.spec_text() == self.spec_text(),
    {
        Multiaddr { text: vstd::slice::slice_to_vec(self.text.as_slice()) }
    }

    /// Pops a trailing `p2p` component, handing back the shortened address
    /// and the component's value.
    pub fn pop_p2p(&self) -> (r: Option<(Multiaddr, Vec<u8>)>)
        ensures
            match r {
                Some((base, tok)) => split_p2p(self.spec_text()) == Some(
                    (base.spec_text(), tok@),
                ),
                None => split_p2p(self.spec_text()) is None,
            },
    {
        let s = self.text.as_slice();
        let n = s.len();
        let i = match rfind_byte(s, 47) {
            Some(i) => i,
            None => {
                return None;
            },
        };
        proof {
            crate::util::lemma_last_byte_index(s@, 47);
            assert(i < n);
        }
        let tok = vstd::slice::slice_to_vec(vstd::slice::slice_subrange(s, i + 1, n));
        assert(tok@ =~= s@.skip(i + 1));
        let head = vstd::slice::slice_subrange(s, 0, i);
        assert(head@ =~= s@.take(i as int));
        let j = match rfind_byte(head, 47) {
            Some(j) => j,
            None => {
                return None;
            },
        };
        proof {
            crate::util::lemma_last_byte_index(head@, 47);
        }
        let seg = vstd::slice::slice_subrange(head, j + 1, head.len());
        assert(seg@ =~= head@.skip(j + 1));
        let p2p_name = "p2p".as_bytes_vec();
        if bytes_eq(seg, p2p_name.as_slice()) && tok.len() > 0 {
            let base = vstd::slice::slice_to_vec(vstd::slice::slice_subrange(head, 0, j));
            assert(base@ =~= head@.take(j as int));
            assert(head@.take(j as int) =~= s@.take(i as int).take(j as int));
            Some((Multiaddr { text: base }, tok))
        } else {
            None
        }
    }
}

} // verus!
