//! The `Signed-By` value of a repository: an inline armored key block, or a
//! list of key-file paths.

use vstd::prelude::*;
use crate::text;

verus! {

/// Mathematical model of a [`Signature`].
pub enum SignatureView {
    KeyBlock(Seq<char>),
    KeyPath(Seq<Seq<char>>),
}

/// Trust key material of a repository: either the PGP key itself, stored
/// verbatim inside the source file, or the paths of the files that hold it.
#[derive(Debug, Clone)]
pub enum Signature {
    /// The PGP key is stored inline in the source file.
    KeyBlock(String),
    /// The public key lives in files at the given paths.
    KeyPath(Vec<String>),
}

impl View for Signature {
    type V = SignatureView;

    open spec fn view(&self) -> SignatureView {
        match self {
            Signature::KeyBlock(t) => SignatureView::KeyBlock(t@),
            Signature::KeyPath(ps) => SignatureView::KeyPath(ps.deep_view()),
        }
    }
}

/// The marker that opens an armored public-key block.
pub open spec fn key_block_marker() -> Seq<char> {
    "-----BEGIN PGP PUBLIC KEY BLOCK-----"@
}

/// The non-blank trimmed lines of `s`, in order.
pub open spec fn path_lines_of(s: Seq<char>) -> Seq<Seq<char>> {
    text::lines_of(s).map_values(|l: Seq<char>| text::trim_of(l)).filter(
        |l: Seq<char>| l.len() > 0,
    )
}

/// What parsing a `Signed-By` value yields: the verbatim text when the
/// armored-key marker occurs anywhere in it, else one key path per non-blank
/// trimmed line.
pub open spec fn sig_parse(s: Seq<char>) -> SignatureView {
    if text::contains_seq(s, key_block_marker()) {
        SignatureView::KeyBlock(s)
    } else {
        SignatureView::KeyPath(path_lines_of(s))
    }
}

/// The rendering of a signature inside a `Signed-By:` field: a key block is
/// put on the lines after the field name; a single path follows it on the
/// same line; several paths get one line each.
pub open spec fn sig_render(v: SignatureView) -> Seq<char> {
    match v {
        SignatureView::KeyBlock(t) => seq!['\n'] + t,
        SignatureView::KeyPath(ps) => if ps.len() == 1 {
            seq![' '] + ps[0]
        } else {
            seq!['\n'] + text::join_with(
                ps.map_values(|p: Seq<char>| seq![' '] + p),
                seq!['\n'],
            )
        },
    }
}

impl PartialEq for Signature {
    fn eq(&self, other: &Self) -> (r: bool) {
        let r = match (self, other) {
            (Signature::KeyBlock(a), Signature::KeyBlock(b)) => text::str_eq(
                a.as_str(),
                b.as_str(),
            ),
            (Signature::KeyPath(a), Signature::KeyPath(b)) => text::vec_str_eq(a, b),
            _ => false,
        };
        proof {
            if r {
                assert(self@ =~= other@);
            } else {
                assert(self@ != other@);
            }
        }
        r
    }
}

impl vstd::std_specs::cmp::PartialEqSpecImpl for Signature {
    open spec fn obeys_eq_spec() -> bool {
        true
    }

    open spec fn eq_spec(&self, other: &Self) -> bool {
        self@ == other@
    }
}

impl DeepView for Signature {
    type V = SignatureView;

    open spec fn deep_view(&self) -> SignatureView {
        self.view()
    }
}

impl Signature {
    /// Copies the signature.
    pub fn duplicate(&self) -> (r: Signature)
        ensures
            r@ == self@,
    {
        match self {
            Signature::KeyBlock(t) => Signature::KeyBlock(String::from_str(t.as_str())),
            Signature::KeyPath(ps) => Signature::KeyPath(crate::source_entry::clone_vec_str(ps)),
        }
    }

    /// Classifies a `Signed-By` value.  Never fails: text holding the
    /// armored-key marker anywhere is kept verbatim as a key block, and any
    /// other text is read as one key-file path per non-blank line.
    pub fn parse(s: &str) -> (sig: Signature)
        ensures
            sig@ == sig_parse(s@),
    {
        if text::contains_sub(s, "-----BEGIN PGP PUBLIC KEY BLOCK-----") {
            Signature::KeyBlock(String::from_str(s))
        } else {
            let all = text::split_lines(s);
            let mut paths: Vec<String> = Vec::new();
            let ghost lns = text::lines_of(s@);
            let mut i: usize = 0;
            proof {
                assert(lns.take(0) =~~= Seq::<Seq<char>>::empty());
                assert(paths.deep_view() =~~= lns.take(0).map_values(
                    |l: Seq<char>| text::trim_of(l),
                ).filter(|l: Seq<char>| l.len() > 0));
            }
            while i < all.len()
                invariant
                    i <= all@.len(),
                    all.deep_view() == lns,
                    paths.deep_view() =~~= lns.take(i as int).map_values(
                        |l: Seq<char>| text::trim_of(l),
                    ).filter(|l: Seq<char>| l.len() > 0),
                decreases all@.len() - i,
            {
                let ghost prev = paths.deep_view();
                let t = text::trim(all[i].as_str());
                if t.as_str().unicode_len() > 0 {
                    paths.push(t);
                }
                proof {
                    let tr = |l: Seq<char>| text::trim_of(l);
                    let nonblank = |l: Seq<char>| l.len() > 0;
                    let taken = lns.take(i as int).map_values(tr);
                    assert(lns.take(i + 1) =~~= lns.take(i as int).push(lns[i as int]));
                    assert(lns.take(i + 1).map_values(tr) =~~= taken.push(tr(lns[i as int])));
                    text::lemma_filter_push(taken, nonblank, tr(lns[i as int]));
                    assert(tr(lns[i as int]) == t@);
                    assert(paths.deep_view() =~~= lns.take(i + 1).map_values(tr).filter(
                        nonblank,
                    ));
                }
                i = i + 1;
            }
            proof {
                assert(lns.take(lns.len() as int) =~~= lns);
                assert(paths.deep_view() =~~= path_lines_of(s@));
            }
            Signature::KeyPath(paths)
        }
    }

    /// Renders the signature as the value of a `Signed-By:` field.
    pub fn render(&self) -> (r: String)
        ensures
            r@ == sig_render(self@),
    {
        match self {
            Signature::KeyBlock(t) => {
                let mut r = String::from_str("\n");
                r.append(t.as_str());
                proof {
                    reveal_strlit("\n");
                    assert(r@ =~= sig_render(self@));
                }
                r
            },
            Signature::KeyPath(ps) => {
                if ps.len() == 1 {
                    let mut r = String::from_str(" ");
                    r.append(ps[0].as_str());
                    proof {
                        reveal_strlit(" ");
                        assert(r@ =~= sig_render(self@));
                    }
                    r
                } else {
                    let mut parts: Vec<String> = Vec::new();
                    let mut i: usize = 0;
                    while i < ps.len()
                        invariant
                            i <= ps@.len(),
                            parts.deep_view().len() == i,
                            forall|k: int|
                                0 <= k < i ==> parts.deep_view()[k] == seq![' ']
                                    + ps.deep_view()[k],
                        decreases ps@.len() - i,
                    {
                        let ghost prevparts = parts.deep_view();
                        let mut one = String::from_str(" ");
                        one.append(ps[i].as_str());
                        proof {
                            reveal_strlit(" ");
                            assert(one@ =~= seq![' '] + ps.deep_view()[i as int]);
                        }
                        parts.push(one);
                        proof {
                            assert forall|k: int| 0 <= k < i + 1 implies parts.deep_view()[k]
                                == seq![' '] + ps.deep_view()[k] by {
                                if k < i {
                                    assert(parts.deep_view()[k] == prevparts[k]);
                                }
                            }
                        }
                        i = i + 1;
                    }
                    let joined = text::join(&parts, "\n");
                    let mut r = String::from_str("\n");
                    r.append(joined.as_str());
                    proof {
                        reveal_strlit("\n");
                        assert("\n"@ =~= seq!['\n']);
                        assert(parts.deep_view() =~~= ps.deep_view().map_values(
                            |p: Seq<char>| seq![' '] + p,
                        ));
                        assert(joined@ == text::join_with(
                            ps.deep_view().map_values(|p: Seq<char>| seq![' '] + p),
                            seq!['\n'],
                        ));
                        assert(r@ =~= sig_render(self@));
                    }
                    r
                }
            },
        }
    }
}

} // verus!
