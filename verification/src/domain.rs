//! Domain decomposition: splitting a queried name into its public
//! suffix and its registrable domain (the suffix plus one more label).

use vstd::prelude::*;

use crate::list::{dot_labels, IcannList, List, PrivateList, SpecList};
use crate::matcher::spec_find;
use crate::text::{
    copy_range, lemma_split_on_at, lemma_split_on_bytes, lemma_split_on_none,
    lemma_split_on_nonempty, lemma_tail_bytes_reverse, lemma_tail_bytes_shift, reverse_pieces,
    split_bytes, split_on, tail_bytes, DOT,
};
use crate::trie::Type;

verus! {

/// The public suffix of a name, as bytes of the original input, with
/// its fully-qualified flag and the matching rule's section.
#[derive(Debug, Clone, PartialEq, Eq)]
pub struct Suffix {
    bytes: Vec<u8>,
    fqdn: bool,
    typ: Option<Type>,
}

/// Mathematical counterpart of `Suffix`.
#[verifier::ext_equal]
pub ghost struct SpecSuffix {
    pub bytes: Seq<u8>,
    pub fqdn: bool,
    pub typ: Option<Type>,
}

impl View for Suffix {
    type V = SpecSuffix;

    closed spec fn view(&self) -> SpecSuffix {
        SpecSuffix { bytes: self.bytes@, fqdn: self.fqdn, typ: self.typ }
    }
}

/// A registrable domain: the suffix plus exactly one more label.
#[derive(Debug, Clone, PartialEq, Eq)]
pub struct Domain {
    bytes: Vec<u8>,
    suffix: Suffix,
}

/// Mathematical counterpart of `Domain`.
#[verifier::ext_equal]
pub ghost struct SpecDomain {
    pub bytes: Seq<u8>,
    pub suffix: SpecSuffix,
}

impl View for Domain {
    type V = SpecDomain;

    closed spec fn view(&self) -> SpecDomain {
        SpecDomain { bytes: self.bytes@, suffix: self.suffix@ }
    }
}

/// The labels handed to the lookup: the name's pieces rightmost first,
/// skipping the empty piece after the trailing dot of a fully
/// qualified name.
pub open spec fn query_labels(name: Seq<u8>) -> Seq<Seq<u8>> {
    if name.len() > 0 && name.last() == DOT {
        dot_labels(name).drop_first()
    } else {
        dot_labels(name)
    }
}

/// The model of the suffix query: look the labels up, count the
/// trailing dot back into the length for a fully qualified name, and
/// hand back that many bytes from the right — or nothing when the
/// matched length is zero (only possible for an empty name).
pub open spec fn spec_suffix(list: SpecList, name: Seq<u8>) -> Option<SpecSuffix> {
    let fqdn = name.len() > 0 && name.last() == DOT;
    let info = spec_find(list.rules, list.typ, query_labels(name));
    let len = if fqdn {
        info.len + 1
    } else {
        info.len
    };
    if len == 0 {
        None
    } else {
        Some(
            SpecSuffix {
                bytes: name.subrange(name.len() - len, name.len() as int),
                fqdn,
                typ: info.typ,
            },
        )
    }
}

/// The model of the registrable-domain query: the suffix, one
/// separating dot, and the label just before them; nothing when the
/// name has no label beyond its suffix.
pub open spec fn spec_domain(list: SpecList, name: Seq<u8>) -> Option<SpecDomain> {
    match spec_suffix(list, name) {
        None => None,
        Some(suffix) => {
            let name_len = name.len() as int;
            let suffix_len = suffix.bytes.len() as int;
            if name_len < suffix_len + 2 {
                None
            } else {
                let offset = name_len - (1 + suffix_len);
                let subdomain = name.subrange(0, offset);
                let root_label = split_on(subdomain, DOT).last();
                let registrable_len = root_label.len() + 1 + suffix_len;
                Some(
                    SpecDomain {
                        bytes: name.subrange(name_len - registrable_len, name_len),
                        suffix,
                    },
                )
            }
        },
    }
}

impl SpecSuffix {
    /// A fully qualified suffix really ends in a dot.
    pub open spec fn wf(self) -> bool {
        self.fqdn ==> self.bytes.len() > 0 && self.bytes.last() == DOT
    }
}

impl SpecDomain {
    /// The parts hold together: the suffix is well formed, and for a
    /// fully qualified name the whole ends in the dot too.
    pub open spec fn wf(self) -> bool {
        self.suffix.wf() && (self.suffix.fqdn ==> self.bytes.len() > 0 && self.bytes.last() == DOT)
    }
}

impl Suffix {
    /// A fully qualified suffix really ends in a dot.
    pub open spec fn wf(self) -> bool {
        self@.wf()
    }

    /// The suffix as bytes of the original input.
    pub fn as_bytes(&self) -> (r: &Vec<u8>)
        ensures
            r@ == self@.bytes,
    {
        &self.bytes
    }

    /// Whether the suffix is fully qualified (ends with a dot).
    pub fn is_fqdn(&self) -> (r: bool)
        ensures
            r == self@.fqdn,
    {
        self.fqdn
    }

    /// Which section the matching rule came from, if any.
    pub fn typ(&self) -> (r: Option<Type>)
        ensures
            r == self@.typ,
    {
        self.typ
    }

    /// Whether the suffix comes from a rule of the list, rather than
    /// from the implicit single-label rule.
    pub fn is_known(&self) -> (r: bool)
        ensures
            r == (self@.typ is Some),
    {
        self.typ.is_some()
    }

    /// Whether the matching rule came from the ICANN section.
    pub fn is_icann(&self) -> (r: bool)
        ensures
            r == (self@.typ == Some(Type::Icann)),
    {
        match self.typ {
            Some(Type::Icann) => true,
            _ => false,
        }
    }

    /// Whether the matching rule came from the private section.
    pub fn is_private(&self) -> (r: bool)
        ensures
            r == (self@.typ == Some(Type::Private)),
    {
        match self.typ {
            Some(Type::Private) => true,
            _ => false,
        }
    }

    /// The suffix with a trailing dot removed.
    pub fn trim(self) -> (r: Suffix)
        requires
            self.wf(),
        ensures
            r@ == if self@.fqdn {
                SpecSuffix { bytes: self@.bytes.drop_last(), fqdn: false, typ: self@.typ }
            } else {
                self@
            },
            r.wf(),
    {
        if self.fqdn {
            let mut s = self;
            s.bytes.pop();
            s.fqdn = false;
            s
        } else {
            self
        }
    }
}

impl Domain {
    /// The parts hold together: the suffix is well formed, and for a
    /// fully qualified name the whole ends in the dot too.
    pub open spec fn wf(self) -> bool {
        self@.wf()
    }

    /// The registrable domain as bytes of the original input.
    pub fn as_bytes(&self) -> (r: &Vec<u8>)
        ensures
            r@ == self@.bytes,
    {
        &self.bytes
    }

    /// The public suffix of this domain.
    pub fn suffix(&self) -> (r: &Suffix)
        ensures
            r@ == self@.suffix,
    {
        &self.suffix
    }

    /// The domain with a trailing dot removed.
    pub fn trim(self) -> (r: Domain)
        requires
            self.wf(),
        ensures
            r@ == if self@.suffix.fqdn {
                SpecDomain {
                    bytes: self@.bytes.drop_last(),
                    suffix: SpecSuffix {
                        bytes: self@.suffix.bytes.drop_last(),
                        fqdn: false,
                        typ: self@.suffix.typ,
                    },
                }
            } else {
                self@
            },
    {
        if self.suffix.is_fqdn() {
            let mut d = self;
            d.bytes.pop();
            d.suffix = d.suffix.trim();
            d
        } else {
            self
        }
    }
}

/// The byte budget of the query labels is the name's length plus one,
/// or exactly the name's length for a fully qualified name; and there
/// is always at least one label.
proof fn lemma_query_labels_budget(name: Seq<u8>)
    ensures
        query_labels(name).len() >= 1,
        tail_bytes(query_labels(name), 0) == if name.len() > 0 && name.last() == DOT {
            name.len() as int
        } else {
            name.len() as int + 1
        },
{
    let ps = split_on(name, DOT);
    lemma_split_on_nonempty(name, DOT);
    lemma_split_on_bytes(name, DOT);
    lemma_tail_bytes_reverse(ps);
    let all = dot_labels(name);
    if name.len() > 0 && name.last() == DOT {
        lemma_split_on_nonempty(name.drop_last(), DOT);
        assert(ps.last().len() == 0);
        assert(ps.len() >= 2);
        assert(all[0] == ps.last());
        assert(all.len() >= 2);
        lemma_tail_bytes_shift(all);
        assert(tail_bytes(all, 0) == all[0].len() + 1 + tail_bytes(all, 1));
        assert(query_labels(name) == all.drop_first());
    }
}

/// The matched length is a byte count from the right end of the
/// queried name: a suffix, when found, is a non-empty tail of the
/// name's own bytes.
pub proof fn lemma_suffix_is_tail(list: SpecList, name: Seq<u8>)
    ensures
        match spec_suffix(list, name) {
            Some(s) => 1 <= s.bytes.len() <= name.len() && s.bytes == name.subrange(
                name.len() - s.bytes.len(),
                name.len() as int,
            ),
            None => true,
        },
{
    lemma_query_labels_budget(name);
    crate::matcher::lemma_spec_find_len_bound(list.rules, list.typ, query_labels(name));
}

impl List {
    /// The public suffix of the name, as `spec_suffix` describes.
    pub fn suffix(&self, name: &[u8]) -> (r: Option<Suffix>)
        requires
            self.wf(),
            name@.len() < usize::MAX,
        ensures
            match r {
                Some(s) => spec_suffix(self@, name@) == Some(s@) && s.wf(),
                None => spec_suffix(self@, name@) is None,
            },
    {
        let n = name.len();
        let fqdn = n > 0 && name[n - 1] == DOT;
        let pieces = split_bytes(name, DOT);
        let mut labels = reverse_pieces(pieces);
        proof {
            assert(labels.deep_view() == dot_labels(name@));
            lemma_query_labels_budget(name@);
        }
        if fqdn {
            let ghost before = labels.deep_view();
            labels.remove(0);
            proof {
                assert(labels.deep_view() =~~= before.drop_first());
                assert(labels.deep_view() == query_labels(name@));
            }
        } else {
            proof {
                assert(labels.deep_view() == query_labels(name@));
            }
        }
        proof {
            crate::matcher::lemma_spec_find_len_bound(self@.rules, self@.typ, labels.deep_view());
        }
        let info = self.find(&labels);
        let len = if fqdn {
            info.len + 1
        } else {
            info.len
        };
        if len == 0 {
            return None;
        }
        let offset = n - len;
        let bytes = copy_range(name, offset, n);
        let s = Suffix { bytes, fqdn, typ: info.typ };
        proof {
            assert(s@.bytes == name@.subrange(n - len, n as int));
            if fqdn {
                assert(name@[n - 1] == DOT);
                assert(s@.bytes.last() == DOT);
            }
            assert(spec_suffix(self@, name@) == Some(s@));
        }
        Some(s)
    }

    /// The registrable domain of the name, as `spec_domain` describes.
    pub fn domain(&self, name: &[u8]) -> (r: Option<Domain>)
        requires
            self.wf(),
            name@.len() < usize::MAX,
        ensures
            match r {
                Some(d) => spec_domain(self@, name@) == Some(d@) && d.wf(),
                None => spec_domain(self@, name@) is None,
            },
    {
        let suffix = match self.suffix(name) {
            Some(s) => s,
            None => {
                return None;
            },
        };
        let n = name.len();
        let suffix_len = suffix.bytes.len();
        proof {
            lemma_query_labels_budget(name@);
            crate::matcher::lemma_spec_find_len_bound(self@.rules, self@.typ, query_labels(name@));
            assert(suffix@.bytes.len() <= name@.len());
        }
        if n - suffix_len < 2 {
            proof {
                assert(spec_domain(self@, name@) is None);
            }
            return None;
        }
        let offset = n - (1 + suffix_len);
        let ghost subdomain = name@.subrange(0, offset as int);
        let mut rs: usize = offset;
        while rs > 0 && name[rs - 1] != DOT
            invariant
                0 <= rs <= offset,
                offset <= name@.len(),
                subdomain == name@.subrange(0, offset as int),
                forall|t: int| rs <= t < offset ==> name@[t] != DOT,
            decreases rs,
        {
            rs = rs - 1;
        }
        proof {
            assert forall|t: int| 0 <= t < offset - rs implies #[trigger] subdomain.subrange(
                rs as int,
                offset as int,
            )[t] != DOT by {
                assert(subdomain.subrange(rs as int, offset as int)[t] == name@[t + rs]);
            }
            if rs == 0 {
                assert forall|i: int| 0 <= i < subdomain.len() implies subdomain[i] != DOT by {
                    assert(subdomain[i] == subdomain.subrange(rs as int, offset as int)[i]);
                }
                lemma_split_on_none(subdomain, DOT);
                assert(split_on(subdomain, DOT).last() =~= subdomain.subrange(
                    rs as int,
                    offset as int,
                ));
            } else {
                assert(subdomain[rs - 1] == name@[rs - 1]);
                lemma_split_on_at(subdomain, DOT, rs - 1);
                let right = subdomain.subrange(rs as int, offset as int);
                lemma_split_on_none(right, DOT);
                lemma_split_on_nonempty(subdomain.subrange(0, rs - 1), DOT);
                assert(split_on(subdomain, DOT).last() == right);
            }
            assert(split_on(subdomain, DOT).last() == name@.subrange(rs as int, offset as int));
        }
        let bytes = copy_range(name, rs, n);
        let d = Domain { bytes, suffix };
        proof {
            let root_label = split_on(subdomain, DOT).last();
            let registrable_len = root_label.len() + 1 + suffix@.bytes.len();
            assert(root_label.len() == offset - rs);
            assert(n - registrable_len == rs);
            assert(d@.bytes == name@.subrange(n - registrable_len, n as int));
            if d.suffix@.fqdn {
                assert(d@.bytes.last() == name@[n - 1]);
            }
            assert(spec_domain(self@, name@) == Some(d@));
        }
        Some(d)
    }
}

impl IcannList {
    /// The public suffix of the name, counting only ICANN rules.
    pub fn suffix(&self, name: &[u8]) -> (r: Option<Suffix>)
        requires
            self.wf(),
            name@.len() < usize::MAX,
        ensures
            match r {
                Some(s) => spec_suffix(self@, name@) == Some(s@) && s.wf(),
                None => spec_suffix(self@, name@) is None,
            },
    {
        self.0.suffix(name)
    }

    /// The registrable domain of the name, counting only ICANN rules.
    pub fn domain(&self, name: &[u8]) -> (r: Option<Domain>)
        requires
            self.wf(),
            name@.len() < usize::MAX,
        ensures
            match r {
                Some(d) => spec_domain(self@, name@) == Some(d@) && d.wf(),
                None => spec_domain(self@, name@) is None,
            },
    {
        self.0.domain(name)
    }
}

impl PrivateList {
    /// The public suffix of the name, counting only private rules.
    pub fn suffix(&self, name: &[u8]) -> (r: Option<Suffix>)
        requires
            self.wf(),
            name@.len() < usize::MAX,
        ensures
            match r {
                Some(s) => spec_suffix(self@, name@) == Some(s@) && s.wf(),
                None => spec_suffix(self@, name@) is None,
            },
    {
        self.0.suffix(name)
    }

    /// The registrable domain of the name, counting only private rules.
    pub fn domain(&self, name: &[u8]) -> (r: Option<Domain>)
        requires
            self.wf(),
            name@.len() < usize::MAX,
        ensures
            match r {
                Some(d) => spec_domain(self@, name@) == Some(d@) && d.wf(),
                None => spec_domain(self@, name@) is None,
            },
    {
        self.0.domain(name)
    }
}

} // verus!
