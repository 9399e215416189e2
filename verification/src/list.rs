//! The public suffix lists: parsing the list's text into a rule trie,
//! and the lookup entry points.

use vstd::prelude::*;
use vstd::string::StringSliceAdditionalSpecFns;

use crate::matcher::{find_in_node, spec_find, Info};
use crate::text::{
    contains_byte, contains_subseq, copy_range, find_byte, first_token, has_subseq, reverse_pieces,
    spec_first_token, spec_lines, split_bytes, split_lines, split_on, tail_bytes, BANG, DOT, SLASH,
};
use crate::trie::{spec_insert, Leaf, Node, SpecNode, Type};

verus! {

/// Why a list failed to build.
#[derive(Debug, Clone, PartialEq, Eq, PartialOrd, Ord, Hash)]
pub enum Error {
    EmptyLabel(Vec<u8>),
    ExceptionAtFirstLabel(Vec<u8>),
    InvalidList,
    InvalidRule(Vec<u8>),
    ListNotUtf8Encoded,
}

/// Mathematical counterpart of `Error`.
#[verifier::ext_equal]
pub ghost enum SpecError {
    EmptyLabel(Seq<u8>),
    ExceptionAtFirstLabel(Seq<u8>),
    InvalidList,
    InvalidRule(Seq<u8>),
    ListNotUtf8Encoded,
}

impl View for Error {
    type V = SpecError;

    open spec fn view(&self) -> SpecError {
        match self {
            Error::EmptyLabel(r) => SpecError::EmptyLabel(r@),
            Error::ExceptionAtFirstLabel(r) => SpecError::ExceptionAtFirstLabel(r@),
            Error::InvalidList => SpecError::InvalidList,
            Error::InvalidRule(r) => SpecError::InvalidRule(r@),
            Error::ListNotUtf8Encoded => SpecError::ListNotUtf8Encoded,
        }
    }
}

/// Whether a byte sequence is valid UTF-8: a property of the bytes
/// alone, decided by the standard library.
pub uninterp spec fn is_utf8(bytes: Seq<u8>) -> bool;

/// Relies on core::str::from_utf8: it accepts exactly the byte
/// sequences that are valid UTF-8.
#[verifier::external_body]
fn utf8_check(bytes: &[u8]) -> (r: bool)
    ensures
        r == is_utf8(bytes@),
{
    core::str::from_utf8(bytes).is_ok()
}

/// The ASCII (punycode) form of a rule, or `None` where the conversion
/// rejects it: a function of the rule's bytes alone.
pub uninterp spec fn ascii_form(rule: Seq<u8>) -> Option<Seq<u8>>;

/// Relies on idna::domain_to_ascii for the conversion itself, and on
/// core::str::from_utf8 to read the rule's bytes as text; both results
/// depend on the input bytes alone.
#[verifier::external_body]
fn rule_to_ascii(rule: &[u8]) -> (r: Option<Vec<u8>>)
    ensures
        match r {
            Some(a) => ascii_form(rule@) == Some(a@),
            None => ascii_form(rule@) is None,
        },
{
    match core::str::from_utf8(rule) {
        Ok(s) => match idna::domain_to_ascii(s) {
            Ok(a) => Some(a.into_bytes()),
            Err(_) => None,
        },
        Err(_) => None,
    }
}

/// The labels of a rule, rightmost first.
pub open spec fn dot_labels(rule: Seq<u8>) -> Seq<Seq<u8>> {
    split_on(rule, DOT).reverse()
}

/// Does splitting the rule on dots give some empty label?
pub open spec fn some_empty_label(ps: Seq<Seq<u8>>) -> bool {
    exists|i: int| 0 <= i < ps.len() && ps[i].len() == 0
}

/// The model of adding one rule to the trie: strip a leading `!`,
/// reject an exception without a dot and any empty label, and insert
/// the labels rightmost-first.
pub open spec fn spec_append(node: SpecNode, rule: Seq<u8>, typ: Type) -> Result<
    SpecNode,
    SpecError,
> {
    if rule.len() > 0 && rule.first() == BANG {
        if !contains_byte(rule, DOT) {
            Err(SpecError::ExceptionAtFirstLabel(rule))
        } else {
            let body = rule.drop_first();
            if some_empty_label(dot_labels(body)) {
                Err(SpecError::EmptyLabel(body))
            } else {
                Ok(spec_insert(node, dot_labels(body), Leaf { is_exception: true, typ }))
            }
        }
    } else {
        if some_empty_label(dot_labels(rule)) {
            Err(SpecError::EmptyLabel(rule))
        } else {
            Ok(spec_insert(node, dot_labels(rule), Leaf { is_exception: false, typ }))
        }
    }
}

/// `// BEGIN ICANN DOMAINS`, the marker that opens the ICANN section
/// (only the quoted words are matched, anywhere in the line).
pub open spec fn icann_marker_bytes() -> Seq<u8> {
    seq![66u8, 69, 71, 73, 78, 32, 73, 67, 65, 78, 78, 32, 68, 79, 77, 65, 73, 78, 83]
}

/// `// BEGIN PRIVATE DOMAINS`, the marker that opens the private
/// section.
pub open spec fn private_marker_bytes() -> Seq<u8> {
    seq![66u8, 69, 71, 73, 78, 32, 80, 82, 73, 86, 65, 84, 69, 32, 68, 79, 77, 65, 73, 78, 83]
}

fn icann_marker() -> (r: Vec<u8>)
    ensures
        r@ == icann_marker_bytes(),
{
    let v: Vec<u8> = vec![66u8, 69, 71, 73, 78, 32, 73, 67, 65, 78, 78, 32, 68, 79, 77, 65, 73, 78, 83];
    proof {
        assert(v@ =~= icann_marker_bytes());
    }
    v
}

fn private_marker() -> (r: Vec<u8>)
    ensures
        r@ == private_marker_bytes(),
{
    let v: Vec<u8> = vec![66u8, 69, 71, 73, 78, 32, 80, 82, 73, 86, 65, 84, 69, 32, 68, 79, 77, 65, 73, 78, 83];
    proof {
        assert(v@ =~= private_marker_bytes());
    }
    v
}

/// The model of the line loop: section markers switch the current
/// section; comment lines and lines outside any section are skipped;
/// any other line contributes its first token as a rule, inserted both
/// as written and in its ASCII form.
pub open spec fn spec_parse_lines(
    lines: Seq<Seq<u8>>,
    i: int,
    typ: Option<Type>,
    node: SpecNode,
) -> Result<SpecNode, SpecError>
    decreases lines.len() - i,
{
    if i < 0 || i >= lines.len() {
        Ok(node)
    } else {
        let line = lines[i];
        if has_subseq(line, icann_marker_bytes()) {
            spec_parse_lines(lines, i + 1, Some(Type::Icann), node)
        } else if has_subseq(line, private_marker_bytes()) {
            spec_parse_lines(lines, i + 1, Some(Type::Private), node)
        } else if line.len() >= 2 && line[0] == SLASH && line[1] == SLASH {
            spec_parse_lines(lines, i + 1, typ, node)
        } else {
            match typ {
                None => spec_parse_lines(lines, i + 1, typ, node),
                Some(t) => match spec_first_token(line) {
                    None => spec_parse_lines(lines, i + 1, typ, node),
                    Some(tok) => match spec_append(node, tok, t) {
                        Err(e) => Err(e),
                        Ok(n2) => match ascii_form(tok) {
                            None => Err(SpecError::InvalidRule(tok)),
                            Some(a) => match spec_append(n2, a, t) {
                                Err(e) => Err(e),
                                Ok(n3) => spec_parse_lines(lines, i + 1, typ, n3),
                            },
                        },
                    },
                },
            }
        }
    }
}

/// Mathematical model of a list: the trie and the section filter.
#[verifier::ext_equal]
pub ghost struct SpecList {
    pub rules: SpecNode,
    pub typ: Option<Type>,
}

/// The model of building a list from text: run the line loop from an
/// empty trie, and reject a list to which no rule contributed.
pub open spec fn spec_from_text(text: Seq<u8>) -> Result<SpecList, SpecError> {
    match spec_parse_lines(spec_lines(text), 0, None, SpecNode::empty()) {
        Err(e) => Err(e),
        Ok(node) => if node.children == Map::<Seq<u8>, SpecNode>::empty() {
            Err(SpecError::InvalidList)
        } else {
            Ok(SpecList { rules: node, typ: None })
        },
    }
}

/// The model of building a list from raw bytes: the bytes must be
/// UTF-8, then the text is parsed.
pub open spec fn spec_from_bytes(bytes: Seq<u8>) -> Result<SpecList, SpecError> {
    if !is_utf8(bytes) {
        Err(SpecError::ListNotUtf8Encoded)
    } else {
        spec_from_text(bytes)
    }
}

/// A dynamic public suffix list.
#[derive(Debug, PartialEq, Eq)]
pub struct List {
    pub rules: Node,
    pub typ: Option<Type>,
}

impl View for List {
    type V = SpecList;

    open spec fn view(&self) -> SpecList {
        SpecList { rules: self.rules.view(), typ: self.typ }
    }
}

impl List {
    /// The trie's keys are distinct at every level.
    pub open spec fn wf(self) -> bool {
        self.rules.wf()
    }

    /// Creates a new, empty list.
    pub fn new() -> (r: Self)
        ensures
            r.wf(),
            r@ == (SpecList { rules: SpecNode::empty(), typ: None::<Type> }),
    {
        List { rules: Node::empty(), typ: None }
    }

    /// Checks whether the list is empty: no rule was ever added.
    pub fn is_empty(&self) -> (r: bool)
        ensures
            r == (self@.rules.children == Map::<Seq<u8>, SpecNode>::empty()),
    {
        let r = self.rules.children.len() == 0;
        proof {
            if self.rules.children@.len() == 0 {
                assert(self@.rules.children =~= Map::<Seq<u8>, SpecNode>::empty());
            } else {
                let s = self.rules.children@;
                assert(self@.rules.children.contains_key(s.last().0@));
            }
        }
        r
    }

    /// Adds one rule under the given section type, as `spec_append`
    /// describes; on an error the list is unchanged.
    fn append(&mut self, rule: &[u8], typ: Type) -> (r: Result<(), Error>)
        requires
            old(self).wf(),
        ensures
            final(self).wf(),
            final(self).typ == old(self).typ,
            match r {
                Ok(_) => spec_append(old(self)@.rules, rule@, typ) == Ok::<SpecNode, SpecError>(
                    final(self)@.rules,
                ),
                Err(e) => spec_append(old(self)@.rules, rule@, typ) == Err::<SpecNode, SpecError>(
                    e@,
                ) && *final(self) == *old(self),
            },
    {
        let ghost rules0 = self@.rules;
        let mut is_exception = false;
        let mut body: &[u8] = rule;
        if rule.len() > 0 && rule[0] == BANG {
            if !find_byte(rule, DOT) {
                let payload = copy_range(rule, 0, rule.len());
                proof {
                    assert(payload@ =~= rule@);
                    assert(spec_append(rules0, rule@, typ) == Err::<SpecNode, SpecError>(
                        SpecError::ExceptionAtFirstLabel(rule@),
                    ));
                }
                return Err(Error::ExceptionAtFirstLabel(payload));
            }
            is_exception = true;
            body = &rule[1..rule.len()];
            proof {
                assert(body@ =~= rule@.drop_first());
            }
        }
        let ghost bv = body@;
        let pieces = split_bytes(body, DOT);
        let ghost pv = pieces.deep_view();
        if any_empty_piece(&pieces) {
            let payload = copy_range(body, 0, body.len());
            proof {
                lemma_some_empty_reverse(pv);
                assert(some_empty_label(dot_labels(bv)));
                assert(payload@ =~= bv);
                assert(spec_append(rules0, rule@, typ) == Err::<SpecNode, SpecError>(
                    SpecError::EmptyLabel(bv),
                ));
            }
            return Err(Error::EmptyLabel(payload));
        }
        proof {
            lemma_none_empty_reverse(pv);
            assert(!some_empty_label(dot_labels(bv)));
        }
        let labels = reverse_pieces(pieces);
        let lf = Leaf { is_exception, typ };
        self.rules.insert_path(&labels, 0, lf);
        proof {
            assert(labels.deep_view().skip(0) =~= labels.deep_view());
            assert(labels.deep_view() == dot_labels(bv));
            assert(self@.rules == spec_insert(rules0, dot_labels(bv), lf));
            assert(spec_append(rules0, rule@, typ) == Ok::<SpecNode, SpecError>(self@.rules));
        }
        Ok(())
    }
}

/// Is one of the pieces empty?
fn any_empty_piece(pieces: &Vec<Vec<u8>>) -> (r: bool)
    ensures
        r == some_empty_label(pieces.deep_view()),
{
    let mut i: usize = 0;
    while i < pieces.len()
        invariant
            0 <= i <= pieces@.len(),
            forall|t: int| 0 <= t < i ==> pieces.deep_view()[t].len() != 0,
        decreases pieces@.len() - i,
    {
        let piece: &Vec<u8> = &pieces[i];
        proof {
            assert(pieces.deep_view()[i as int] == pieces@[i as int].deep_view());
            assert(piece@ =~= pieces.deep_view()[i as int]);
        }
        if piece.len() == 0 {
            proof {
                assert(pieces.deep_view()[i as int].len() == 0);
            }
            return true;
        }
        i = i + 1;
    }
    false
}

/// If some piece is empty, so is some piece of the reversed sequence.
proof fn lemma_some_empty_reverse(ps: Seq<Seq<u8>>)
    requires
        some_empty_label(ps),
    ensures
        some_empty_label(ps.reverse()),
{
    let i = choose|i: int| 0 <= i < ps.len() && ps[i].len() == 0;
    assert(ps.reverse()[ps.len() - 1 - i].len() == 0);
}

/// If no piece is empty, none of the reversed sequence is either.
proof fn lemma_none_empty_reverse(ps: Seq<Seq<u8>>)
    requires
        !some_empty_label(ps),
    ensures
        !some_empty_label(ps.reverse()),
{
    if some_empty_label(ps.reverse()) {
        let i = choose|i: int| 0 <= i < ps.reverse().len() && ps.reverse()[i].len() == 0;
        assert(ps[ps.len() - 1 - i].len() == 0);
    }
}

impl List {
    /// Creates a new list from a byte slice, as `spec_from_bytes`
    /// describes: an `Err` reports bytes that are not UTF-8 or a
    /// malformed or empty list.
    pub fn from_bytes(bytes: &[u8]) -> (r: Result<Self, Error>)
        ensures
            match r {
                Ok(l) => l.wf() && spec_from_bytes(bytes@) == Ok::<SpecList, SpecError>(l@),
                Err(e) => spec_from_bytes(bytes@) == Err::<SpecList, SpecError>(e@),
            },
    {
        if !utf8_check(bytes) {
            return Err(Error::ListNotUtf8Encoded);
        }
        Self::parse_text(bytes)
    }

    /// Creates a new list from a string, as `spec_from_text` describes:
    /// an `Err` reports a malformed or empty list.
    pub fn from_str(s: &str) -> (r: Result<Self, Error>)
        ensures
            match r {
                Ok(l) => l.wf() && spec_from_text(s.spec_bytes()) == Ok::<SpecList, SpecError>(l@),
                Err(e) => spec_from_text(s.spec_bytes()) == Err::<SpecList, SpecError>(e@),
            },
    {
        Self::parse_text(s.as_bytes())
    }

    /// Parses the list's text line by line.
    fn parse_text(bytes: &[u8]) -> (r: Result<Self, Error>)
        ensures
            match r {
                Ok(l) => l.wf() && spec_from_text(bytes@) == Ok::<SpecList, SpecError>(l@),
                Err(e) => spec_from_text(bytes@) == Err::<SpecList, SpecError>(e@),
            },
    {
        let lines = split_lines(bytes);
        let ghost lv = lines.deep_view();
        let icann = icann_marker();
        let private = private_marker();
        let mut list = List::new();
        let mut typ: Option<Type> = None;
        let mut i: usize = 0;
        while i < lines.len()
            invariant
                0 <= i <= lines@.len(),
                lines.deep_view() == lv,
                lv == spec_lines(bytes@),
                icann@ == icann_marker_bytes(),
                private@ == private_marker_bytes(),
                list.wf(),
                list@.typ is None,
                spec_parse_lines(lv, i as int, typ, list@.rules) == spec_parse_lines(
                    lv,
                    0,
                    None::<Type>,
                    SpecNode::empty(),
                ),
            decreases lines@.len() - i,
        {
            let line: &Vec<u8> = &lines[i];
            let ghost entry_typ = typ;
            let ghost entry_rules = list@.rules;
            proof {
                assert(lv[i as int] == lines@[i as int].deep_view());
                assert(line@ =~= lv[i as int]);
            }
            if contains_subseq(line.as_slice(), icann.as_slice()) {
                typ = Some(Type::Icann);
            } else if contains_subseq(line.as_slice(), private.as_slice()) {
                typ = Some(Type::Private);
            } else if line.len() >= 2 && line[0] == SLASH && line[1] == SLASH {
            } else {
                match typ {
                    None => {},
                    Some(t) => {
                        match first_token(line.as_slice()) {
                            None => {},
                            Some(tok) => {
                                match list.append(tok.as_slice(), t) {
                                    Ok(_) => {},
                                    Err(e) => {
                                        proof {
                                            assert(spec_parse_lines(
                                                lv,
                                                i as int,
                                                entry_typ,
                                                entry_rules,
                                            ) == Err::<SpecNode, SpecError>(e@));
                                        }
                                        return Err(e);
                                    },
                                }
                                match rule_to_ascii(tok.as_slice()) {
                                    None => {
                                        proof {
                                            assert(spec_parse_lines(
                                                lv,
                                                i as int,
                                                entry_typ,
                                                entry_rules,
                                            ) == Err::<SpecNode, SpecError>(SpecError::InvalidRule(
                                                tok@,
                                            )));
                                        }
                                        return Err(Error::InvalidRule(tok));
                                    },
                                    Some(a) => {
                                        match list.append(a.as_slice(), t) {
                                            Ok(_) => {},
                                            Err(e) => {
                                                proof {
                                                    assert(spec_parse_lines(
                                                        lv,
                                                        i as int,
                                                        entry_typ,
                                                        entry_rules,
                                                    ) == Err::<SpecNode, SpecError>(e@));
                                                }
                                                return Err(e);
                                            },
                                        }
                                    },
                                }
                            },
                        }
                    },
                }
            }
            proof {
                assert(spec_parse_lines(lv, i as int, entry_typ, entry_rules) == spec_parse_lines(
                    lv,
                    i + 1,
                    typ,
                    list@.rules,
                ));
            }
            i = i + 1;
        }
        proof {
            assert(spec_parse_lines(lv, lines@.len() as int, typ, list@.rules)
                == Ok::<SpecNode, SpecError>(list@.rules));
        }
        if list.is_empty() {
            return Err(Error::InvalidList);
        }
        proof {
            assert(spec_from_text(bytes@) == Ok::<SpecList, SpecError>(list@));
        }
        Ok(list)
    }

    /// Finds the suffix information for the given labels, which must be
    /// in right-to-left order; the byte budget guards the running total
    /// against overflow.
    pub fn find(&self, labels: &Vec<Vec<u8>>) -> (r: Info)
        requires
            self.wf(),
            tail_bytes(labels.deep_view(), 0) <= usize::MAX,
        ensures
            r@ == spec_find(self@.rules, self@.typ, labels.deep_view()),
    {
        find_in_node(&self.rules, self.typ, labels)
    }
}

impl Default for List {
    /// An empty list, the same as `List::new` builds.
    fn default() -> (r: List)
        ensures
            r.wf(),
            r@ == (SpecList { rules: SpecNode::empty(), typ: None::<Type> }),
    {
        List::new()
    }
}

/// A list of only ICANN suffixes.
#[derive(Debug, PartialEq, Eq)]
pub struct IcannList(pub List);

impl View for IcannList {
    type V = SpecList;

    open spec fn view(&self) -> SpecList {
        self.0.view()
    }
}

impl IcannList {
    pub open spec fn wf(self) -> bool {
        self.0.wf() && self.0.typ == Some(Type::Icann)
    }

    /// Creates a new list from a byte slice; the list it builds is the
    /// whole list with its lookups filtered to ICANN rules.
    pub fn from_bytes(bytes: &[u8]) -> (r: Result<Self, Error>)
        ensures
            match spec_from_bytes(bytes@) {
                Ok(sl) => r matches Ok(l) && l.wf() && l@ == (SpecList {
                    rules: sl.rules,
                    typ: Some(Type::Icann),
                }),
                Err(e) => r matches Err(x) && x@ == e,
            },
    {
        match List::from_bytes(bytes) {
            Ok(mut l) => {
                l.typ = Some(Type::Icann);
                Ok(IcannList(l))
            },
            Err(e) => Err(e),
        }
    }

    /// Checks whether the list is empty, ignoring the filter.
    pub fn is_empty(&self) -> (r: bool)
        ensures
            r == (self@.rules.children == Map::<Seq<u8>, SpecNode>::empty()),
    {
        self.0.is_empty()
    }

    /// Finds the suffix information for the given labels; only ICANN
    /// rules beyond the first label count.
    pub fn find(&self, labels: &Vec<Vec<u8>>) -> (r: Info)
        requires
            self.wf(),
            tail_bytes(labels.deep_view(), 0) <= usize::MAX,
        ensures
            r@ == spec_find(self@.rules, Some(Type::Icann), labels.deep_view()),
    {
        self.0.find(labels)
    }
}

impl IcannList {
    /// Creates a new list from a string, filtered to ICANN rules.
    pub fn from_str(s: &str) -> (r: Result<Self, Error>)
        ensures
            match spec_from_text(s.spec_bytes()) {
                Ok(sl) => r matches Ok(l) && l.wf() && l@ == (SpecList {
                    rules: sl.rules,
                    typ: Some(Type::Icann),
                }),
                Err(e) => r matches Err(x) && x@ == e,
            },
    {
        match List::from_str(s) {
            Ok(mut l) => {
                l.typ = Some(Type::Icann);
                Ok(IcannList(l))
            },
            Err(e) => Err(e),
        }
    }
}

impl From<List> for IcannList {
    /// The whole list, its lookups now filtered to ICANN rules.
    fn from(list: List) -> (r: IcannList) {
        let mut l = list;
        l.typ = Some(Type::Icann);
        IcannList(l)
    }
}

impl vstd::std_specs::convert::FromSpecImpl<List> for IcannList {
    open spec fn obeys_from_spec() -> bool {
        true
    }

    open spec fn from_spec(v: List) -> IcannList {
        IcannList(List { rules: v.rules, typ: Some(Type::Icann) })
    }
}

impl From<IcannList> for List {
    /// The filtered list's rules, with the filter taken off.
    fn from(list: IcannList) -> (r: List) {
        let IcannList(mut l) = list;
        l.typ = None;
        l
    }
}

impl vstd::std_specs::convert::FromSpecImpl<IcannList> for List {
    open spec fn obeys_from_spec() -> bool {
        true
    }

    open spec fn from_spec(v: IcannList) -> List {
        List { rules: v.0.rules, typ: None }
    }
}

/// A list of only private suffixes.
#[derive(Debug, PartialEq, Eq)]
pub struct PrivateList(pub List);

impl View for PrivateList {
    type V = SpecList;

    open spec fn view(&self) -> SpecList {
        self.0.view()
    }
}

impl PrivateList {
    pub open spec fn wf(self) -> bool {
        self.0.wf() && self.0.typ == Some(Type::Private)
    }

    /// Creates a new list from a byte slice; the list it builds is the
    /// whole list with its lookups filtered to private rules.
    pub fn from_bytes(bytes: &[u8]) -> (r: Result<Self, Error>)
        ensures
            match spec_from_bytes(bytes@) {
                Ok(sl) => r matches Ok(l) && l.wf() && l@ == (SpecList {
                    rules: sl.rules,
                    typ: Some(Type::Private),
                }),
                Err(e) => r matches Err(x) && x@ == e,
            },
    {
        match List::from_bytes(bytes) {
            Ok(mut l) => {
                l.typ = Some(Type::Private);
                Ok(PrivateList(l))
            },
            Err(e) => Err(e),
        }
    }

    /// Checks whether the list is empty, ignoring the filter.
    pub fn is_empty(&self) -> (r: bool)
        ensures
            r == (self@.rules.children == Map::<Seq<u8>, SpecNode>::empty()),
    {
        self.0.is_empty()
    }

    /// Finds the suffix information for the given labels; only private
    /// rules beyond the first label count.
    pub fn find(&self, labels: &Vec<Vec<u8>>) -> (r: Info)
        requires
            self.wf(),
            tail_bytes(labels.deep_view(), 0) <= usize::MAX,
        ensures
            r@ == spec_find(self@.rules, Some(Type::Private), labels.deep_view()),
    {
        self.0.find(labels)
    }
}


impl PrivateList {
    /// Creates a new list from a string, filtered to private rules.
    pub fn from_str(s: &str) -> (r: Result<Self, Error>)
        ensures
            match spec_from_text(s.spec_bytes()) {
                Ok(sl) => r matches Ok(l) && l.wf() && l@ == (SpecList {
                    rules: sl.rules,
                    typ: Some(Type::Private),
                }),
                Err(e) => r matches Err(x) && x@ == e,
            },
    {
        match List::from_str(s) {
            Ok(mut l) => {
                l.typ = Some(Type::Private);
                Ok(PrivateList(l))
            },
            Err(e) => Err(e),
        }
    }
}

impl From<List> for PrivateList {
    /// The whole list, its lookups now filtered to private rules.
    fn from(list: List) -> (r: PrivateList) {
        let mut l = list;
        l.typ = Some(Type::Private);
        PrivateList(l)
    }
}

impl vstd::std_specs::convert::FromSpecImpl<List> for PrivateList {
    open spec fn obeys_from_spec() -> bool {
        true
    }

    open spec fn from_spec(v: List) -> PrivateList {
        PrivateList(List { rules: v.rules, typ: Some(Type::Private) })
    }
}

impl From<PrivateList> for List {
    /// The filtered list's rules, with the filter taken off.
    fn from(list: PrivateList) -> (r: List) {
        let PrivateList(mut l) = list;
        l.typ = None;
        l
    }
}

impl vstd::std_specs::convert::FromSpecImpl<PrivateList> for List {
    open spec fn obeys_from_spec() -> bool {
        true
    }

    open spec fn from_spec(v: PrivateList) -> List {
        List { rules: v.0.rules, typ: None }
    }
}

} // verus!
