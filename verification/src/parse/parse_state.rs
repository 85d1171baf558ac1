//! Matching markers into blocks, with a marker's line checked against the
//! marker before it.
use vstd::prelude::*;

use crate::parse::block::Block;
use crate::parse::errors::{MarkerError, MarkerErrorKind};
use crate::parse::file::{
    occurrence,
    block_matches, found_ordered, lemma_steps_push, marker_matches, parse_failed,
    parse_succeeded, step_ok, steps_ok, BlockBuilder, FoundModel,
};
use crate::parse::loc::{lemma_advance_components, lemma_advance_concat, newline_count};
use crate::parse::marker_inst::{loc_at, origin, MarkerInst};
use crate::parse::marker_kind::MarkerKind;
use crate::parse::parse_input::ParseInput;
use crate::parse::program::has_nl;

verus! {

/// A text without newlines has none to count, and one with a newline has some.
pub proof fn lemma_newline_count_zero(s: Seq<char>)
    ensures
        newline_count(s) == 0 <==> !has_nl(s, 0, s.len() as int),
    decreases s.len(),
{
    if s.len() > 0 {
        let t = s.drop_last();
        lemma_newline_count_zero(t);
        if has_nl(t, 0, t.len() as int) {
            let j = choose|j: int| 0 <= j < t.len() && t[j] == '\n';
            assert(s[j] == '\n');
        }
        if has_nl(s, 0, s.len() as int) && s.last() != '\n' {
            let j = choose|j: int| 0 <= j < s.len() && s[j] == '\n';
            assert(t[j] == '\n');
        }
    }
}

/// Two positions are on the same line exactly when no newline lies between them.
pub proof fn lemma_same_line(text: Seq<char>, i: int, j: int)
    requires
        0 <= i <= j <= text.len(),
    ensures
        (loc_at(text, i).1 == loc_at(text, j).1) <==> !has_nl(text, i, j),
{
    let sub = text.subrange(i, j);
    lemma_advance_concat(origin(), text.take(i), sub);
    assert(text.take(i) + sub =~= text.take(j));
    lemma_advance_components(loc_at(text, i), sub);
    lemma_newline_count_zero(sub);
    if has_nl(text, i, j) {
        let q = choose|q: int| i <= q < j && text[q] == '\n';
        assert(sub[q - i] == '\n');
    }
    if has_nl(sub, 0, sub.len() as int) {
        let q = choose|q: int| 0 <= q < sub.len() && sub[q] == '\n';
        assert(text[i + q] == '\n');
    }
}

/// A marker located in a text lies within one line.
pub proof fn lemma_located_wf(m: MarkerInst, text: Seq<char>, s: int, e: int)
    requires
        m.located_in(text, s, e),
    ensures
        m.wf(),
{
    crate::parse::program::lemma_line_start(text, s);
    crate::parse::program::lemma_line_end(text, s);
    let le = crate::parse::program::line_end_of(text, s);
    if le < e {
        assert(has_nl(text, s, e));
    }
    lemma_same_line(text, s, e);
}

/// The state of matching the markers of a source into blocks.
pub struct ParseFileState<'a, 'i> {
    pub input: &'i ParseInput<'a>,
    pub builder: BlockBuilder<'i>,
}

impl<'a, 'i> ParseFileState<'a, 'i> {
    /// The state follows from the occurrences pushed so far, all of them
    /// acceptable with line checks.
    pub open spec fn wf(self) -> bool {
        &&& self.builder.wf()
        &&& self.builder.content@ == self.input.content@
        &&& steps_ok(self.builder.content@, self.builder.found@, self.builder.found@.len() as int, true)
    }

    /// The state before any marker.
    pub fn init(input: &'i ParseInput<'a>) -> (res: ParseFileState<'a, 'i>)
        ensures
            res.wf(),
            res.input == input,
            res.builder.content@ == input.content@,
            res.builder.found@ == Seq::<FoundModel>::empty(),
    {
        ParseFileState { input, builder: BlockBuilder::new(input.content.as_str()) }
    }

    /// The marker before the next one: the last open marker, or else the output
    /// end marker of the last block.
    pub fn last_marker(&self) -> (res: Option<&MarkerInst<'i>>)
        requires
            self.wf(),
        ensures
            self.builder.found@.len() == 0 ==> res is None,
            self.builder.found@.len() > 0 ==> (res matches Some(m) && marker_matches(
                *m,
                self.builder.content@,
                self.builder.found@.last(),
            )),
    {
        let ghost n = self.builder.found@.len() as int;
        if self.builder.state.len() > 0 {
            let k = self.builder.state.len() - 1;
            assert(marker_matches(self.builder.state@[k as int], self.builder.content@, self.builder.found@[n - n % 3 + k]));
            Some(&self.builder.state[k])
        } else if self.builder.blocks.len() > 0 {
            let g = self.builder.blocks.len() - 1;
            assert(block_matches(self.builder.blocks@[g as int], self.builder.content@, self.builder.found@, g as int));
            Some(&self.builder.blocks[g].markers.outp_end)
        } else {
            None
        }
    }

    /// The kind of marker expected next.
    pub fn expected_marker_kind(&self) -> (res: MarkerKind)
        requires
            self.wf(),
        ensures
            res.spec_index() == self.builder.found@.len() % 3,
    {
        MarkerKind::from_index(self.builder.state.len())
    }

    /// Adds `this` after the markers pushed before. Fails if
    /// its kind is not the one expected next, if it is on the same line as the
    /// marker before it where its kind must start a line, or if it closes a
    /// block whose program end and output end markers share a line.
    #[verifier::spinoff_prover]
    pub fn push_marker(&mut self, this: MarkerInst<'i>) -> (res: Result<(), MarkerError<'i>>)
        requires
            old(self).wf(),
            marker_matches(this, old(self).builder.content@, occurrence(this.kind.spec_index(), this)),
            found_ordered(old(self).builder.content@, old(self).builder.found@.push(occurrence(this.kind.spec_index(), this))),
        ensures
            final(self).input == old(self).input,
            final(self).builder.content == old(self).builder.content,
            match res {
                Ok(()) => {
                    &&& final(self).wf()
                    &&& final(self).builder.found@ == old(self).builder.found@.push(occurrence(this.kind.spec_index(), this))
                },
                Err(e) => {
                    &&& *final(self) == *old(self)
                    &&& e.open_markers@ == old(self).builder.state@
                    &&& !step_ok(old(self).builder.content@, old(self).builder.found@.push(occurrence(this.kind.spec_index(), this)), old(self).builder.found@.len() as int, true)
                    &&& if this.kind.spec_index() == old(self).builder.found@.len() % 3 {
                        e.kind == MarkerErrorKind::MarkerOnSameLine(this)
                    } else {
                        e.kind == MarkerErrorKind::UnexpectedMarker(this)
                    }
                },
            },
    {
        let ghost f = occurrence(this.kind.spec_index(), this);
        let ghost text = self.builder.content@;
        let ghost n = self.builder.found@.len() as int;
        let ghost nf = self.builder.found@.push(f);
        proof {
            assert(nf[n] == f);
            assert forall|k: int| 0 <= k < n implies #[trigger] nf[k] == self.builder.found@[k] by {}
        }
        let expected = self.expected_marker_kind();
        if this.kind != expected {
            let state = self.builder.state.clone();
            proof {
                assert(state@ =~= self.builder.state@);
            }
            return Err(MarkerError { kind: MarkerErrorKind::UnexpectedMarker(this), open_markers: state });
        }
        proof {
            lemma_located_wf(this, text, f.1, f.2);
            if n > 0 {
                let p = self.builder.found@[n - 1];
                assert(nf[n - 1] == p);
            }
        }
        let ok = match self.last_marker() {
            Some(prev) => {
                proof {
                    let p = self.builder.found@[n - 1];
                    lemma_located_wf(*prev, text, p.1, p.2);
                }
                this.ok_after(prev)
            },
            None => true,
        };
        proof {
            if n > 0 {
                let p = self.builder.found@[n - 1];
                assert(nf[n - 1] == p);
                assert(p.2 <= f.1);
                lemma_same_line(text, p.1, f.1);
                assert(this.span.start.model() == loc_at(text, f.1));
            }
        }
        if !ok {
            let state = self.builder.state.clone();
            proof {
                assert(state@ =~= self.builder.state@);
            }
            return Err(MarkerError { kind: MarkerErrorKind::MarkerOnSameLine(this), open_markers: state });
        }
        let kind_idx = this.kind.index();
        let res = self.builder.push_marker(kind_idx, this);
        proof {
            match res {
                Ok(()) => {
                    assert(step_ok(text, nf, n, false));
                    assert(step_ok(text, nf, n, true));
                    lemma_steps_push(text, old(self).builder.found@, f, true);
                },
                Err(_) => {},
            }
        }
        res
    }

    /// The blocks, if no block is left open.
    pub fn finalize_file(self) -> (res: Result<Vec<Block<'i>>, MarkerError<'i>>)
        requires
            self.wf(),
        ensures
            match res {
                Ok(blocks) => parse_succeeded(self.builder.content@, self.builder.found@, true, blocks@),
                Err(e) => parse_failed(self.builder.content@, self.builder.found@, true, e),
            },
    {
        if self.builder.state.len() == 0 {
            Ok(self.builder.blocks)
        } else {
            Err(MarkerError { kind: MarkerErrorKind::UnexpectedEOF, open_markers: self.builder.state })
        }
    }
}

} // verus!
