//! A Message-ID-list header value: each identifier in angle brackets,
//! folded onto a new line once a line reaches 76 columns.

use vstd::prelude::*;

verus! {

use vstd::string::StringSliceAdditionalSpecFns;
use crate::bytestr::str_vec;
use crate::headers::{Header, crlf};

/// A list of message identifiers.
pub struct MessageId {
    pub id: Vec<Vec<u8>>,
}

/// The rendering of an identifier list that starts `written` bytes into
/// the current line: `<id>` for each identifier, a fold (CRLF and a tab)
/// after any identifier that closes at or past column 76 with more to
/// come, and a final CRLF.
pub open spec fn mid_render(ids: Seq<Seq<u8>>, written: int) -> Seq<u8>
    decreases ids.len(),
{
    if ids.len() == 0 {
        if written > 0 {
            crlf()
        } else {
            Seq::empty()
        }
    } else {
        let chunk = seq![60u8] + ids[0] + seq![62u8];
        let w2 = written + ids[0].len() + 2;
        if w2 >= 76 && ids.len() > 1 {
            chunk + seq![13u8, 10u8, 9u8] + mid_render(ids.drop_first(), 0)
        } else {
            chunk + mid_render(ids.drop_first(), w2)
        }
    }
}

pub proof fn lemma_mid_render_terminated(ids: Seq<Seq<u8>>, written: int)
    requires
        written >= 0,
        written >= 1 || ids.len() >= 1,
    ensures
        mid_render(ids, written).len() >= 2,
        mid_render(ids, written)[mid_render(ids, written).len() - 2] == 13u8,
        mid_render(ids, written)[mid_render(ids, written).len() - 1] == 10u8,
    decreases ids.len(),
{
    if ids.len() == 0 {
    } else {
        let w2 = written + ids[0].len() + 2;
        if w2 >= 76 && ids.len() > 1 {
            lemma_mid_render_terminated(ids.drop_first(), 0);
        } else {
            lemma_mid_render_terminated(ids.drop_first(), w2);
        }
    }
}

impl MessageId {
    /// The identifiers as byte strings.
    pub open spec fn ids(&self) -> Seq<Seq<u8>> {
        Seq::new(self.id@.len(), |i: int| self.id@[i]@)
    }

    /// Create a list holding one identifier.
    pub fn new(id: &str) -> (r: Self)
        ensures
            r.ids() == seq![id.spec_bytes()],
    {
        let mut v: Vec<Vec<u8>> = Vec::new();
        v.push(str_vec(id));
        let r = MessageId { id: v };
        proof {
            assert(r.ids() =~= seq![id.spec_bytes()]);
        }
        r
    }

    /// Append one identifier to the list.
    pub fn add_id(&mut self, id: &str)
        ensures
            final(self).ids() == old(self).ids().push(id.spec_bytes()),
    {
        self.id.push(str_vec(id));
        proof {
            assert(self.ids() =~= old(self).ids().push(id.spec_bytes()));
        }
    }
}

impl Header for MessageId {
    open spec fn rendered(&self, written: int) -> Seq<u8> {
        mid_render(self.ids(), written)
    }

    fn write_header(&self, out: &mut Vec<u8>, written: usize) -> (r: usize) {
        let ghost out0 = out@;
        let mut i: usize = 0;
        let mut w: usize = written;
        let ghost mut wg: int = written as int;
        proof {
            assert(self.ids().skip(0) =~= self.ids());
        }
        while i < self.id.len()
            invariant
                0 <= i <= self.id@.len(),
                wg >= 0,
                w as int == if wg <= usize::MAX as int {
                    wg
                } else {
                    usize::MAX as int
                },
                out0 + mid_render(self.ids(), written as int) == out@ + mid_render(
                    self.ids().skip(i as int),
                    wg,
                ),
            decreases self.id@.len() - i,
        {
            let ghost rest = self.ids().skip(i as int);
            let ghost out_pre = out@;
            proof {
                assert(rest[0] == self.id@[i as int]@);
                assert(rest.drop_first() =~= self.ids().skip(i as int + 1));
            }
            out.push(60);
            out.extend_from_slice(self.id[i].as_slice());
            out.push(62);
            let w2: usize = w.saturating_add(self.id[i].len()).saturating_add(2);
            let ghost wg2 = wg + self.id@[i as int]@.len() + 2;
            proof {
                assert(w2 as int == if wg2 <= usize::MAX as int {
                    wg2
                } else {
                    usize::MAX as int
                });
            }
            if w2 >= 76 && i + 1 < self.id.len() {
                out.push(13);
                out.push(10);
                out.push(9);
                w = 0;
                proof {
                    wg = 0;
                    assert(mid_render(rest, wg2 - self.id@[i as int]@.len() - 2) == (seq![60u8]
                        + rest[0] + seq![62u8]) + seq![13u8, 10u8, 9u8] + mid_render(
                        rest.drop_first(),
                        0,
                    ));
                    assert(out@ =~= out_pre + (seq![60u8] + rest[0] + seq![62u8]) + seq![
                        13u8,
                        10u8,
                        9u8,
                    ]);
                }
            } else {
                w = w2;
                proof {
                    wg = wg2;
                    assert(mid_render(rest, wg2 - self.id@[i as int]@.len() - 2) == (seq![60u8]
                        + rest[0] + seq![62u8]) + mid_render(rest.drop_first(), wg2));
                    assert(out@ =~= out_pre + (seq![60u8] + rest[0] + seq![62u8]));
                }
            }
            i = i + 1;
        }
        proof {
            assert(self.ids().skip(i as int).len() == 0);
            assert(self.ids().skip(i as int) =~= Seq::<Seq<u8>>::empty());
        }
        if w > 0 {
            crate::headers::put_crlf(out);
        }
        proof {
            assert(out@ =~= out0 + mid_render(self.ids(), written as int));
        }
        0
    }

    proof fn rendered_line_terminated(&self, written: int) {
        lemma_mid_render_terminated(self.ids(), written);
    }
}

} // verus!
