use elayr::parser::{
    Attribute, Comment, Content, Doctype, Element, XMLDecl, XMLDoc, attribute, cdata, comment,
    doctype_decl, element, enc_decl, sd_decl, version_decl, xml_decl, xml_prolog,
};
use elayr::prim::ParseError;

#[test]
fn parse_version() {
    assert_eq!(
        version_decl(b"version='123'", 0),
        Ok((b"123".to_vec(), 13))
    );
}

#[test]
fn parse_encoding() {
    assert_eq!(
        enc_decl(b"encoding='UTF-8'", 0),
        Ok((b"UTF-8".to_vec(), 16))
    );
}

#[test]
fn parse_standalone() {
    assert_eq!(sd_decl(b"standalone='yes'", 0), Ok((true, 16)));
    assert_eq!(sd_decl(b"standalone=\"no\"", 0), Ok((false, 15)));
}

#[test]
fn parse_xml_decl() {
    assert_eq!(
        xml_decl(b"<?xml version='1.0' ?>", 0),
        Ok((
            XMLDecl {
                version: b"1.0".to_vec(),
                encoding: b"UTF-8".to_vec(),
                standalone: false,
            },
            22
        ))
    );
}

#[test]
fn parse_comment() {
    assert_eq!(
        comment(b"<!-- comment -->", 0),
        Ok((b" comment ".to_vec(), 16))
    );
}

#[test]
fn parse_xml_prolog() {
    let input = b"<?xml version='1.0' ?>\n            <!-- Hey. -->\n            <!DOCTYPE html>\n            <!-- Ho. -->";
    let (prolog, end) = xml_prolog(input, 0).expect("prolog should parse");
    assert_eq!(
        prolog.decl,
        Some(XMLDecl {
            version: b"1.0".to_vec(),
            encoding: b"UTF-8".to_vec(),
            standalone: false,
        })
    );
    assert_eq!(
        prolog.comments,
        vec![
            Comment(b" Hey. ".to_vec()),
            Comment(b" Ho. ".to_vec()),
        ]
    );
    assert_eq!(prolog.doctype, Some(Doctype { name: b"html".to_vec() }));
    assert_eq!(end, input.len());
}

#[test]
fn parse_doctype_decl() {
    assert_eq!(
        doctype_decl(b"<!DOCTYPE html>", 0),
        Ok((Doctype { name: b"html".to_vec() }, 15))
    );
}

#[test]
fn parse_attribute() {
    assert_eq!(
        attribute(b"src='test'", 0),
        Ok((
            Attribute {
                name: b"src".to_vec(),
                value: b"test".to_vec(),
            },
            10
        ))
    );
}

#[test]
fn parse_empty_elem_tag() {
    let input = b"<img src='test' />";
    let expected = Element {
        name: b"img".to_vec(),
        attributes: vec![Attribute {
            name: b"src".to_vec(),
            value: b"test".to_vec(),
        }],
        children: vec![],
    };
    assert_eq!(element(input, 0), Ok((expected, input.len())));
}

#[test]
fn parse_cdata() {
    assert_eq!(
        cdata(b"<![CDATA[<i>test</i>]]>", 0),
        Ok((b"<i>test</i>".to_vec(), 23))
    );
}

#[test]
fn parse_tag_pair() {
    let input = b"<p>\n                <img src='bleh' width=\"42\" />\n                <!-- Separator -->\n                <i>italic</i>\n            </p>";
    let expected = Element {
        name: b"p".to_vec(),
        attributes: vec![],
        children: vec![
            Content::Element(Element {
                name: b"img".to_vec(),
                attributes: vec![
                    Attribute {
                        name: b"src".to_vec(),
                        value: b"bleh".to_vec(),
                    },
                    Attribute {
                        name: b"width".to_vec(),
                        value: b"42".to_vec(),
                    },
                ],
                children: vec![],
            }),
            Content::Comment(Comment(b" Separator ".to_vec())),
            Content::Element(Element {
                name: b"i".to_vec(),
                attributes: vec![],
                children: vec![Content::Chars(b"italic".to_vec())],
            }),
        ],
    };
    assert_eq!(element(input, 0), Ok((expected, input.len())));
}

#[test]
fn parse_xml_doc() {
    let input = b"<?xml version='1.0' ?>\n            <!-- Hey. -->\n            <!DOCTYPE html>\n            <!-- Ho. -->\n            <svg>\n                <img src='test' width='42' />\n                <!-- Separator -->\n                <hr />\n            </svg>\n            <!-- End. -->";
    let doc = XMLDoc::parse(input).expect("document should parse");
    assert_eq!(
        doc.prolog.decl,
        Some(XMLDecl {
            version: b"1.0".to_vec(),
            encoding: b"UTF-8".to_vec(),
            standalone: false,
        })
    );
    assert_eq!(
        doc.prolog.comments,
        vec![
            Comment(b" Hey. ".to_vec()),
            Comment(b" Ho. ".to_vec()),
        ]
    );
    assert_eq!(doc.prolog.doctype, Some(Doctype { name: b"html".to_vec() }));
    let root = Element {
        name: b"svg".to_vec(),
        attributes: vec![],
        children: vec![
            Content::Element(Element {
                name: b"img".to_vec(),
                attributes: vec![
                    Attribute {
                        name: b"src".to_vec(),
                        value: b"test".to_vec(),
                    },
                    Attribute {
                        name: b"width".to_vec(),
                        value: b"42".to_vec(),
                    },
                ],
                children: vec![],
            }),
            Content::Comment(Comment(b" Separator ".to_vec())),
            Content::Element(Element {
                name: b"hr".to_vec(),
                attributes: vec![],
                children: vec![],
            }),
        ],
    };
    assert_eq!(doc.root, root);
    assert_eq!(doc.misc, vec![Comment(b" End. ".to_vec())]);
}

#[test]
fn close_tag_mismatch_is_invalid() {
    match XMLDoc::parse(b"<a><b></a></b>") {
        Err(ParseError::Invalid(_)) => {}
        other => panic!("expected an invalid document, got {:?}", other),
    }
}

#[test]
fn entity_references_resolve_in_text() {
    let (elem, _) = element(b"<t>a &amp; b</t>", 0).expect("element should parse");
    assert_eq!(elem.children, vec![Content::Chars(b"a & b".to_vec())]);
}

#[test]
fn entity_references_resolve_in_attribute_values() {
    let (elem, _) = element(b"<a b='x&lt;y'/>", 0).expect("element should parse");
    assert_eq!(elem.attributes[0].value, b"x<y".to_vec());
}

#[test]
fn default_prolog_values_without_trailing_space() {
    let (decl, end) = xml_decl(b"<?xml version='1.0'?>", 0).expect("declaration should parse");
    assert_eq!(decl.encoding, b"UTF-8".to_vec());
    assert!(!decl.standalone);
    assert_eq!(end, 21);
}

#[test]
fn truncated_document_is_incomplete() {
    assert_eq!(XMLDoc::parse(b"<svg"), Err(ParseError::Incomplete));
    assert_eq!(XMLDoc::parse(b"<svg>"), Err(ParseError::Incomplete));
}

#[test]
fn trailing_garbage_is_invalid() {
    assert_eq!(XMLDoc::parse(b"<svg></svg>x"), Err(ParseError::Invalid(11)));
}

#[test]
fn cdata_becomes_character_data() {
    let (elem, _) = element(b"<t><![CDATA[<i>raw</i>]]></t>", 0).expect("element should parse");
    assert_eq!(elem.children, vec![Content::Chars(b"<i>raw</i>".to_vec())]);
}

#[test]
fn attributes_need_whitespace_between_them() {
    match XMLDoc::parse(b"<svg x='1'y='2'></svg>") {
        Err(ParseError::Invalid(_)) => {}
        other => panic!("expected an invalid document, got {:?}", other),
    }
}

#[test]
fn close_tag_may_pad_its_name_with_whitespace() {
    let (elem, end) = element(b"<a ></a  >", 0).expect("element should parse");
    assert_eq!(elem.name, b"a".to_vec());
    assert_eq!(end, 10);
}

#[test]
fn doctype_keyword_needs_its_space() {
    match XMLDoc::parse(b"<!DOCTYPEhtml><svg/>") {
        Err(ParseError::Invalid(_)) => {}
        other => panic!("expected an invalid document, got {:?}", other),
    }
}

#[test]
fn unknown_entity_is_invalid() {
    match XMLDoc::parse(b"<svg>a &zzzz; b</svg>") {
        Err(ParseError::Invalid(_)) => {}
        other => panic!("expected an invalid document, got {:?}", other),
    }
}

#[test]
fn double_dash_inside_a_comment_is_invalid() {
    match comment(b"<!-- a--b -->", 0) {
        Err(ParseError::Invalid(_)) => {}
        other => panic!("expected an invalid comment, got {:?}", other),
    }
}
