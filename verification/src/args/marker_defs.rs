//! Marker definitions given as three whitespace-separated words.
use vstd::prelude::*;

use crate::args::marker_defs_error;
use crate::parse::scan::marker_views;
use crate::text::{chars_of, push_str, split_words, words};

verus! {

/// The three markers: program start, program end and output end.
#[derive(Clone, Debug)]
pub struct MarkerDefs(pub [String; 3]);

impl MarkerDefs {
    /// The markers' characters, in order.
    pub open spec fn views(self) -> Seq<Seq<char>> {
        seq![self.0[0]@, self.0[1]@, self.0[2]@]
    }

    /// Parses three whitespace-separated words (any Unicode whitespace separates).
    pub fn from_str(s: &str) -> (res: Result<MarkerDefs, String>)
        ensures
            words(s@, true).len() == 3 ==> (res matches Ok(d) && d.views() == words(s@, true)),
            words(s@, true).len() != 3 ==> (res matches Err(msg) && msg@ == marker_defs_error(s@)),
    {
        let mut parts = split_words(s, true);
        if parts.len() == 3 {
            let ghost ws = parts@.map_values(|w: String| w@);
            let c = parts.pop().unwrap();
            let b = parts.pop().unwrap();
            let a = parts.pop().unwrap();
            let d = MarkerDefs([a, b, c]);
            proof {
                assert(ws[0] == a@);
                assert(ws[1] == b@);
                assert(ws[2] == c@);
                assert(d.views() =~= ws);
            }
            Ok(d)
        } else {
            let mut msg = String::new();
            push_str(&mut msg, "Marker config `");
            push_str(&mut msg, s);
            push_str(&mut msg, "` does not consist of three whitespace-separated words!");
            Err(msg)
        }
    }

    /// Whether the markers can be searched for: none is empty or holds a newline.
    pub fn usable(&self) -> (res: bool)
        ensures
            res == crate::parse::scan::markers_wf(self.views()),
    {
        let ms = self.marker_chars();
        let mut k: usize = 0;
        proof {
            assert(marker_views(ms@).len() == ms@.len());
        }
        while k < 3
            invariant
                k <= 3,
                marker_views(ms@) == self.views(),
                ms@.len() == 3,
                forall|q: int| 0 <= q < k ==> #[trigger] ms@[q]@.len() > 0,
                forall|q: int, j: int| 0 <= q < k && 0 <= j < ms@[q]@.len() ==> #[trigger] ms@[q]@[j] != '\n',
            decreases 3 - k,
        {
            let m = &ms[k];
            if m.len() == 0 {
                proof {
                    assert(self.views()[k as int] == marker_views(ms@)[k as int]);
                }
                return false;
            }
            let mut j: usize = 0;
            while j < m.len()
                invariant
                    j <= m@.len(),
                    k < 3,
                    ms@.len() == 3,
                    *m == ms@[k as int],
                    marker_views(ms@) == self.views(),
                    forall|jj: int| 0 <= jj < j ==> m@[jj] != '\n',
                decreases m@.len() - j,
            {
                if m[j] == '\n' {
                    proof {
                        assert(self.views()[k as int] == marker_views(ms@)[k as int]);
                        assert(self.views()[k as int][j as int] == '\n');
                    }
                    return false;
                }
                j += 1;
            }
            k += 1;
        }
        proof {
            assert forall|q: int| 0 <= q < 3 implies #[trigger] self.views()[q].len() > 0 by {
                assert(self.views()[q] == marker_views(ms@)[q]);
            }
            assert forall|q: int, j: int| 0 <= q < 3 && 0 <= j < self.views()[q].len() implies #[trigger] self.views()[q][j] != '\n' by {
                assert(self.views()[q] == marker_views(ms@)[q]);
                assert(ms@[q]@[j] != '\n');
            }
        }
        true
    }

    /// The markers as character vectors, in order.
    pub fn marker_chars(&self) -> (res: Vec<Vec<char>>)
        ensures
            marker_views(res@) == self.views(),
    {
        let mut res: Vec<Vec<char>> = Vec::new();
        res.push(chars_of(self.0[0].as_str()));
        res.push(chars_of(self.0[1].as_str()));
        res.push(chars_of(self.0[2].as_str()));
        assert(marker_views(res@) =~= self.views());
        res
    }

    /// The three markers separated by single spaces.
    pub fn to_string(&self) -> (res: String)
        ensures
            res@ == self.0[0]@ + seq![' '] + self.0[1]@ + seq![' '] + self.0[2]@,
    {
        let mut out = String::new();
        push_str(&mut out, self.0[0].as_str());
        push_str(&mut out, " ");
        push_str(&mut out, self.0[1].as_str());
        push_str(&mut out, " ");
        push_str(&mut out, self.0[2].as_str());
        proof {
            reveal_strlit(" ");
        }
        out
    }
}

} // verus!
