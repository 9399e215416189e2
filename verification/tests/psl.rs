use publicsuffix::{Error, IcannList, Info, Leaf, List, Node, PrivateList, Type};

const LIST: &[u8] = b"
        // BEGIN ICANN DOMAINS
        com.uk
        ";

fn labels_of(name: &[u8]) -> Vec<Vec<u8>> {
    name.rsplit(|x| *x == b'.').map(|s| s.to_vec()).collect()
}

#[test]
fn list_construction() {
    let list = List::from_bytes(LIST).unwrap();
    let expected = List {
        typ: None,
        rules: Node {
            children: vec![(
                b"uk".to_vec(),
                Node {
                    children: vec![(
                        b"com".to_vec(),
                        Node {
                            children: vec![],
                            leaf: Some(Leaf { is_exception: false, typ: Type::Icann }),
                        },
                    )],
                    leaf: None,
                },
            )],
            leaf: None,
        },
    };
    assert_eq!(list, expected);
}

#[test]
fn find_localhost() {
    let list = List::from_bytes(LIST).unwrap();
    let labels = labels_of(b"localhost");
    assert_eq!(list.find(&labels), Info { len: 9, typ: None });
}

#[test]
fn find_uk() {
    let list = List::from_bytes(LIST).unwrap();
    let labels = labels_of(b"uk");
    assert_eq!(list.find(&labels), Info { len: 2, typ: None });
}

#[test]
fn find_com_uk() {
    let list = List::from_bytes(LIST).unwrap();
    let labels = labels_of(b"com.uk");
    assert_eq!(list.find(&labels), Info { len: 6, typ: Some(Type::Icann) });
}

#[test]
fn find_ide_kyoto_jp() {
    let list = List::from_bytes(b"// BEGIN ICANN DOMAINS\nide.kyoto.jp").unwrap();
    let labels = labels_of(b"ide.kyoto.jp");
    assert_eq!(list.find(&labels), Info { len: 12, typ: Some(Type::Icann) });
}

#[test]
fn new_list_is_empty() {
    let list = List::new();
    assert!(list.is_empty());
    let built = List::from_bytes(LIST).unwrap();
    assert!(!built.is_empty());
}

#[test]
fn build_twice_structurally_equal() {
    let a = List::from_bytes(LIST).unwrap();
    let b = List::from_bytes(LIST).unwrap();
    assert_eq!(a, b);
    for name in [&b"localhost"[..], b"uk", b"com.uk", b"a.b.com.uk"] {
        let labels = labels_of(name);
        assert_eq!(a.find(&labels), b.find(&labels));
    }
}

#[test]
fn exception_rule_carves_back() {
    let list =
        List::from_bytes(b"// BEGIN ICANN DOMAINS\nexample.com\n!foo.example.com").unwrap();
    let labels = labels_of(b"foo.example.com");
    assert_eq!(list.find(&labels), Info { len: 11, typ: Some(Type::Icann) });
}

#[test]
fn wildcard_rule_matches_any_label() {
    let list = List::from_bytes(b"// BEGIN ICANN DOMAINS\n*.example.com").unwrap();
    let labels = labels_of(b"anything.example.com");
    assert_eq!(list.find(&labels), Info { len: 20, typ: Some(Type::Icann) });
    let labels = labels_of(b"other.example.com");
    assert_eq!(list.find(&labels), Info { len: 17, typ: Some(Type::Icann) });
}

#[test]
fn domain_of_www_example_com() {
    let list = List::from_bytes(b"// BEGIN ICANN DOMAINS\ncom").unwrap();
    let domain = list.domain(b"www.example.com").unwrap();
    assert_eq!(domain.as_bytes().as_slice(), b"example.com");
    assert_eq!(domain.suffix().as_bytes().as_slice(), b"com");
    assert_eq!(domain.suffix().typ(), Some(Type::Icann));
    assert!(domain.suffix().is_known());
}

#[test]
fn domain_of_a_b_example_uk_com() {
    let list = List::from_bytes(b"// BEGIN ICANN DOMAINS\nuk.com").unwrap();
    let domain = list.domain(b"a.b.example.uk.com").unwrap();
    assert_eq!(domain.as_bytes().as_slice(), b"example.uk.com");
    assert_eq!(domain.suffix().as_bytes().as_slice(), b"uk.com");
}

#[test]
fn all_suffix_domain_has_no_root() {
    let list = List::from_bytes(b"// BEGIN ICANN DOMAINS\ncom").unwrap();
    let suffix = list.suffix(b"com").unwrap();
    assert_eq!(suffix.as_bytes().as_slice(), b"com");
    assert!(list.domain(b"com").is_none());
}

#[test]
fn fqdn_suffix_keeps_trailing_dot() {
    let list = List::from_bytes(b"// BEGIN ICANN DOMAINS\ncom").unwrap();
    let suffix = list.suffix(b"example.com.").unwrap();
    assert!(suffix.is_fqdn());
    assert_eq!(suffix.as_bytes().as_slice(), b"com.");
    let trimmed = suffix.trim();
    assert!(!trimmed.is_fqdn());
    assert_eq!(trimmed.as_bytes().as_slice(), b"com");
    let domain = list.domain(b"example.com.").unwrap();
    assert_eq!(domain.as_bytes().as_slice(), b"example.com.");
    assert_eq!(domain.trim().as_bytes().as_slice(), b"example.com");
}

#[test]
fn unknown_suffix_is_single_label() {
    let list = List::from_bytes(b"// BEGIN ICANN DOMAINS\ncom").unwrap();
    let suffix = list.suffix(b"example.gafregsrse").unwrap();
    assert_eq!(suffix.as_bytes().as_slice(), b"gafregsrse");
    assert_eq!(suffix.typ(), None);
    assert!(!suffix.is_known());
}

#[test]
fn empty_name_has_no_suffix() {
    let list = List::from_bytes(LIST).unwrap();
    assert!(list.suffix(b"").is_none());
    assert!(list.domain(b"").is_none());
}

#[test]
fn comments_only_list_is_invalid() {
    let err = List::from_bytes(b"// BEGIN ICANN DOMAINS\n// just comments\n\n").unwrap_err();
    assert_eq!(err, Error::InvalidList);
}

#[test]
fn exception_without_dot_is_rejected() {
    let err = List::from_bytes(b"// BEGIN ICANN DOMAINS\n!com").unwrap_err();
    assert_eq!(err, Error::ExceptionAtFirstLabel(b"!com".to_vec()));
}

#[test]
fn empty_label_is_rejected() {
    let err = List::from_bytes(b"// BEGIN ICANN DOMAINS\na..b").unwrap_err();
    assert_eq!(err, Error::EmptyLabel(b"a..b".to_vec()));
}

#[test]
fn non_utf8_list_is_rejected() {
    let err = List::from_bytes(&[0xff, 0xfe, 0x00]).unwrap_err();
    assert_eq!(err, Error::ListNotUtf8Encoded);
}

#[test]
fn unconvertible_rule_is_rejected() {
    let err =
        List::from_bytes(b"// BEGIN ICANN DOMAINS\nxn--99999999999999999999").unwrap_err();
    assert_eq!(
        err,
        Error::InvalidRule(b"xn--99999999999999999999".to_vec())
    );
}

#[test]
fn rules_before_any_section_are_ignored() {
    let err = List::from_bytes(b"example.com\nother.net\n").unwrap_err();
    assert_eq!(err, Error::InvalidList);
}

#[test]
fn unicode_rule_matches_its_ascii_form() {
    let list = List::from_bytes("// BEGIN ICANN DOMAINS\n\u{4e2d}\u{56fd}".as_bytes()).unwrap();
    let labels = labels_of(b"xn--fiqs8s");
    assert_eq!(list.find(&labels), Info { len: 10, typ: Some(Type::Icann) });
    let unicode = "\u{4e2d}\u{56fd}".as_bytes();
    let labels = labels_of(unicode);
    assert_eq!(
        list.find(&labels),
        Info { len: unicode.len(), typ: Some(Type::Icann) }
    );
}

#[test]
fn section_filters_pick_their_rules() {
    let text = b"// BEGIN ICANN DOMAINS\ncom\n// BEGIN PRIVATE DOMAINS\ncloudfront.net";
    let icann = IcannList::from_bytes(text).unwrap();
    let private = PrivateList::from_bytes(text).unwrap();
    assert!(!icann.is_empty());
    assert!(!private.is_empty());

    let labels = labels_of(b"x.cloudfront.net");
    assert_eq!(private.find(&labels), Info { len: 14, typ: Some(Type::Private) });
    assert_eq!(icann.find(&labels), Info { len: 3, typ: None });

    let suffix = private.suffix(b"x.cloudfront.net").unwrap();
    assert_eq!(suffix.as_bytes().as_slice(), b"cloudfront.net");
    assert_eq!(suffix.typ(), Some(Type::Private));
    let suffix = icann.suffix(b"www.example.com").unwrap();
    assert_eq!(suffix.as_bytes().as_slice(), b"com");
    assert_eq!(suffix.typ(), Some(Type::Icann));
}

#[test]
fn marker_lines_switch_sections() {
    let text = b"com\n// BEGIN ICANN DOMAINS\nnet\n// BEGIN PRIVATE DOMAINS\norg";
    let list = List::from_bytes(text).unwrap();
    assert_eq!(list.find(&labels_of(b"com")), Info { len: 3, typ: None });
    assert_eq!(list.find(&labels_of(b"net")), Info { len: 3, typ: Some(Type::Icann) });
    assert_eq!(list.find(&labels_of(b"org")), Info { len: 3, typ: Some(Type::Private) });
}

#[test]
fn crlf_and_token_splitting() {
    let list = List::from_bytes(b"// BEGIN ICANN DOMAINS\r\n  com.au  extra words\r\n").unwrap();
    assert_eq!(
        list.find(&labels_of(b"com.au")),
        Info { len: 6, typ: Some(Type::Icann) }
    );
}

#[test]
fn from_str_matches_from_bytes() {
    let a = List::from_bytes(LIST).unwrap();
    let b = List::from_str(std::str::from_utf8(LIST).unwrap()).unwrap();
    assert_eq!(a, b);
    let err = List::from_str("// BEGIN ICANN DOMAINS\n!com").unwrap_err();
    assert_eq!(err, Error::ExceptionAtFirstLabel(b"!com".to_vec()));
}

#[test]
fn filtered_from_str_builds_the_same_rules() {
    let text = "// BEGIN ICANN DOMAINS\ncom\n// BEGIN PRIVATE DOMAINS\ncloudfront.net";
    let icann = IcannList::from_str(text).unwrap();
    let private = PrivateList::from_str(text).unwrap();
    let labels = labels_of(b"x.cloudfront.net");
    assert_eq!(icann.find(&labels), Info { len: 3, typ: None });
    assert_eq!(private.find(&labels), Info { len: 14, typ: Some(Type::Private) });
}

#[test]
fn conversions_set_and_clear_the_filter() {
    let text = b"// BEGIN ICANN DOMAINS\ncom\n// BEGIN PRIVATE DOMAINS\ncloudfront.net";
    let list = List::from_bytes(text).unwrap();
    let labels = labels_of(b"x.cloudfront.net");
    assert_eq!(list.find(&labels), Info { len: 14, typ: Some(Type::Private) });
    let icann = IcannList::from(list);
    assert_eq!(icann.find(&labels), Info { len: 3, typ: None });
    let back = List::from(icann);
    assert_eq!(back.find(&labels), Info { len: 14, typ: Some(Type::Private) });
    let private = PrivateList::from(back);
    assert_eq!(private.find(&labels), Info { len: 14, typ: Some(Type::Private) });
    let back = List::from(private);
    assert_eq!(back.find(&labels), Info { len: 14, typ: Some(Type::Private) });
}

#[test]
fn default_list_is_empty() {
    let list = List::default();
    assert!(list.is_empty());
    assert_eq!(list, List::new());
}

#[test]
fn lone_dot_is_its_own_suffix() {
    let list = List::from_bytes(LIST).unwrap();
    let suffix = list.suffix(b".").unwrap();
    assert_eq!(suffix.as_bytes().as_slice(), b".");
    assert!(suffix.is_fqdn());
    assert!(!suffix.is_known());
    assert!(list.domain(b".").is_none());
}

#[test]
fn underscore_label_decomposes_like_any_other() {
    let list = List::from_bytes(b"// BEGIN ICANN DOMAINS\ncom").unwrap();
    let suffix = list.suffix(b"_tcp.example.com.").unwrap();
    assert_eq!(suffix.as_bytes().as_slice(), b"com.");
    let domain = list.domain(b"_tcp.example.com.").unwrap();
    assert_eq!(domain.as_bytes().as_slice(), b"example.com.");
}

#[test]
fn suffix_type_projections() {
    let text = b"// BEGIN ICANN DOMAINS\ncom\n// BEGIN PRIVATE DOMAINS\ncloudfront.net";
    let list = List::from_bytes(text).unwrap();
    let icann_suffix = list.suffix(b"www.example.com").unwrap();
    assert!(icann_suffix.is_icann());
    assert!(!icann_suffix.is_private());
    let private_suffix = list.suffix(b"x.cloudfront.net").unwrap();
    assert!(private_suffix.is_private());
    assert!(!private_suffix.is_icann());
    let unknown = list.suffix(b"localhost").unwrap();
    assert!(!unknown.is_icann());
    assert!(!unknown.is_private());
}

#[test]
fn repeated_rule_takes_the_later_section() {
    let text = b"// BEGIN ICANN DOMAINS\ncom\n// BEGIN PRIVATE DOMAINS\ncom";
    let list = List::from_bytes(text).unwrap();
    assert_eq!(
        list.find(&labels_of(b"com")),
        Info { len: 3, typ: Some(Type::Private) }
    );
}

#[test]
fn exception_under_wildcard() {
    let list = List::from_bytes(b"// BEGIN ICANN DOMAINS\n*.ck\n!www.ck").unwrap();
    assert_eq!(
        list.find(&labels_of(b"www.ck")),
        Info { len: 2, typ: Some(Type::Icann) }
    );
    assert_eq!(
        list.find(&labels_of(b"other.ck")),
        Info { len: 8, typ: Some(Type::Icann) }
    );
    let domain = list.domain(b"www.ck").unwrap();
    assert_eq!(domain.as_bytes().as_slice(), b"www.ck");
    assert_eq!(domain.suffix().as_bytes().as_slice(), b"ck");
}
