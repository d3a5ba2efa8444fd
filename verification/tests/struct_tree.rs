use pdf_ast::ast::{AstNode, NodeId, NodeType, PdfAstGraph};
use pdf_ast::limits::{ResourceBudget, ResourceBudgetError};
use pdf_ast::reference_resolver::ObjectNodeMap;
use pdf_ast::struct_tree::{ContentOperator, MarkedContentProps, ParentTreeEntry, StructTreeParser};
use pdf_ast::types::{ObjectId, PdfArray, PdfDictionary, PdfName, PdfReference, PdfString, PdfValue};

#[test]
fn struct_tree_parser_terminates_on_cyclic_kids() {
    let mut ast = PdfAstGraph::new();
    let mut element_dict = PdfDictionary::new();
    element_dict.insert("S", PdfValue::Name(PdfName::new("P")));
    element_dict.insert("K", PdfValue::Reference(PdfReference::new(1, 0)));
    let element_id = ast.create_node(
        NodeType::Object(ObjectId::new(1, 0)),
        PdfValue::Dictionary(element_dict),
    );

    let mut root_dict = PdfDictionary::new();
    root_dict.insert("ParentTree", PdfValue::Dictionary(PdfDictionary::new()));
    root_dict.insert("K", PdfValue::Reference(PdfReference::new(1, 0)));
    let mut resolver = ObjectNodeMap::new();
    resolver.insert(ObjectId::new(1, 0), element_id);
    let budget = ResourceBudget::new(1024, 1024, 1024, 10, 10, 10, 10, 8);
    let mut parser = StructTreeParser::new_with_budget(&mut ast, &resolver, &budget);

    let tree = parser
        .parse_struct_tree_root(&root_dict)
        .expect("structure tree should parse");
    assert_eq!(tree.root, NodeId(1));
    drop(parser);
    assert_eq!(ast.node_count(), 2);
}

#[test]
fn struct_tree_parser_respects_edge_budget() {
    let mut ast = PdfAstGraph::new();
    let mut root_dict = PdfDictionary::new();
    root_dict.insert("ParentTree", PdfValue::Dictionary(PdfDictionary::new()));
    root_dict.insert(
        "K",
        PdfValue::Array(PdfArray::from(vec![
            PdfValue::Integer(1),
            PdfValue::Integer(2),
            PdfValue::Integer(3),
        ])),
    );
    let resolver = ObjectNodeMap::new();
    let budget = ResourceBudget::new(1024, 1024, 1024, 10, 10, 10, 1, 8);
    let mut parser = StructTreeParser::new_with_budget(&mut ast, &resolver, &budget);

    parser
        .parse_struct_tree_root(&root_dict)
        .expect("structure tree should parse");
    assert_eq!(ast.edge_count(), 1);
}

#[test]
fn struct_tree_parser_resolves_indirect_accessibility_strings() {
    let mut ast = PdfAstGraph::new();
    let element_id = ast.create_node(
        NodeType::Object(ObjectId::new(1, 0)),
        PdfValue::Dictionary({
            let mut dict = PdfDictionary::new();
            dict.insert("S", PdfValue::Name(PdfName::new("Figure")));
            dict.insert("Lang", PdfValue::Reference(PdfReference::new(2, 0)));
            dict.insert("Alt", PdfValue::Reference(PdfReference::new(3, 0)));
            dict.insert("ActualText", PdfValue::Reference(PdfReference::new(4, 0)));
            dict
        }),
    );
    let language_id = ast.create_node(
        NodeType::Object(ObjectId::new(2, 0)),
        PdfValue::String(PdfString::new_literal(b"en-US")),
    );
    let alt_id = ast.create_node(
        NodeType::Object(ObjectId::new(3, 0)),
        PdfValue::String(PdfString::new_literal(b"figure")),
    );
    let actual_id = ast.create_node(
        NodeType::Object(ObjectId::new(4, 0)),
        PdfValue::String(PdfString::new_literal(b"actual")),
    );
    let role_map_id = ast.create_node(
        NodeType::Object(ObjectId::new(5, 0)),
        PdfValue::Dictionary({
            let mut dict = PdfDictionary::new();
            dict.insert("Figure", PdfValue::Reference(PdfReference::new(8, 0)));
            dict
        }),
    );
    let role_name_id = ast.create_node(
        NodeType::Object(ObjectId::new(8, 0)),
        PdfValue::Name(PdfName::new("Figure")),
    );
    let class_id = ast.create_node(
        NodeType::Object(ObjectId::new(7, 0)),
        PdfValue::Dictionary(PdfDictionary::new()),
    );
    let class_map_id = ast.create_node(
        NodeType::Object(ObjectId::new(6, 0)),
        PdfValue::Dictionary({
            let mut dict = PdfDictionary::new();
            dict.insert("Layout", PdfValue::Reference(PdfReference::new(7, 0)));
            dict
        }),
    );
    let mut resolver = ObjectNodeMap::new();
    resolver.insert(ObjectId::new(1, 0), element_id);
    resolver.insert(ObjectId::new(2, 0), language_id);
    resolver.insert(ObjectId::new(3, 0), alt_id);
    resolver.insert(ObjectId::new(4, 0), actual_id);
    resolver.insert(ObjectId::new(5, 0), role_map_id);
    resolver.insert(ObjectId::new(8, 0), role_name_id);
    resolver.insert(ObjectId::new(6, 0), class_map_id);
    resolver.insert(ObjectId::new(7, 0), class_id);

    let mut root_dict = PdfDictionary::new();
    root_dict.insert("ParentTree", PdfValue::Dictionary(PdfDictionary::new()));
    root_dict.insert("K", PdfValue::Reference(PdfReference::new(1, 0)));
    root_dict.insert("RoleMap", PdfValue::Reference(PdfReference::new(5, 0)));
    root_dict.insert("ClassMap", PdfValue::Reference(PdfReference::new(6, 0)));
    let mut parser = StructTreeParser::new(&mut ast, &resolver);
    let tree = parser
        .parse_struct_tree_root(&root_dict)
        .expect("structure tree should parse");

    let element = ast.get_node(element_id).expect("element should exist");
    assert_eq!(
        element.metadata.get_property("language").map(String::as_str),
        Some("en-US")
    );
    assert_eq!(
        element.metadata.get_property("alt_text").map(String::as_str),
        Some("figure")
    );
    assert_eq!(
        element.metadata.get_property("actual_text").map(String::as_str),
        Some("actual")
    );
    assert_eq!(
        tree.role_map.get("/Figure").map(String::as_str),
        Some("Figure")
    );
    assert_eq!(tree.class_map.get("/Layout"), Some(&class_id));
}

#[test]
fn struct_tree_parser_resolves_indirect_parent_tree_arrays() {
    let mut ast = PdfAstGraph::new();
    let element_id = ast.create_node(
        NodeType::Object(ObjectId::new(1, 0)),
        PdfValue::Dictionary({
            let mut dict = PdfDictionary::new();
            dict.insert("S", PdfValue::Name(PdfName::new("P")));
            dict
        }),
    );
    let nums_id = ast.create_node(
        NodeType::Object(ObjectId::new(3, 0)),
        PdfValue::Array(PdfArray::from(vec![
            PdfValue::Integer(7),
            PdfValue::Reference(PdfReference::new(1, 0)),
        ])),
    );
    let limits_id = ast.create_node(
        NodeType::Object(ObjectId::new(4, 0)),
        PdfValue::Array(PdfArray::from(vec![
            PdfValue::Integer(7),
            PdfValue::Integer(7),
        ])),
    );
    let parent_tree_id = ast.create_node(
        NodeType::Object(ObjectId::new(2, 0)),
        PdfValue::Dictionary({
            let mut dict = PdfDictionary::new();
            dict.insert("Nums", PdfValue::Reference(PdfReference::new(3, 0)));
            dict.insert("Limits", PdfValue::Reference(PdfReference::new(4, 0)));
            dict
        }),
    );
    let mut resolver = ObjectNodeMap::new();
    resolver.insert(ObjectId::new(1, 0), element_id);
    resolver.insert(ObjectId::new(2, 0), parent_tree_id);
    resolver.insert(ObjectId::new(3, 0), nums_id);
    resolver.insert(ObjectId::new(4, 0), limits_id);

    let mut root_dict = PdfDictionary::new();
    root_dict.insert("ParentTree", PdfValue::Reference(PdfReference::new(2, 0)));
    root_dict.insert("K", PdfValue::Reference(PdfReference::new(1, 0)));
    let mut parser = StructTreeParser::new(&mut ast, &resolver);
    let tree = parser
        .parse_struct_tree_root(&root_dict)
        .expect("structure tree should parse");

    assert!(matches!(
        tree.parent_tree.get_parents(7),
        Some(ParentTreeEntry::Single(id)) if *id == element_id
    ));
    assert_eq!(tree.parent_tree.limits, Some((7, 7)));
}

#[test]
fn struct_tree_text_query_reports_budget_exhaustion() {
    let mut ast = PdfAstGraph::new();
    let mut node = AstNode::new(NodeId(0), NodeType::Unknown, PdfValue::Null);
    node.metadata
        .set_property("actual_text".to_string(), "text".to_string());
    ast.add_node(node);
    let resolver = ObjectNodeMap::new();
    let budget = ResourceBudget::new(1024, 1024, 1024, 100, 0, 10, 10, 10);
    let parser = StructTreeParser::new_with_budget(&mut ast, &resolver, &budget);

    assert_eq!(
        parser
            .get_text_for_structure_with_budget(NodeId(0))
            .expect_err("structure text must respect the object budget"),
        ResourceBudgetError::Objects
    );
}

#[test]
fn struct_tree_requires_a_parent_tree() {
    let mut ast = PdfAstGraph::new();
    let resolver = ObjectNodeMap::new();
    let mut parser = StructTreeParser::new(&mut ast, &resolver);
    assert!(parser.parse_struct_tree_root(&PdfDictionary::new()).is_none());
}

#[test]
fn marked_content_text_is_collected_on_its_element() {
    let mut ast = PdfAstGraph::new();
    let page_id = ast.create_node(NodeType::Object(ObjectId::new(9, 0)), PdfValue::Null);
    let mut root_dict = PdfDictionary::new();
    root_dict.insert("ParentTree", PdfValue::Dictionary(PdfDictionary::new()));
    let mut mcr = PdfDictionary::new();
    mcr.insert("Type", PdfValue::Name(PdfName::new("MCR")));
    mcr.insert("MCID", PdfValue::Integer(3));
    mcr.insert("Pg", PdfValue::Reference(PdfReference::new(9, 0)));
    let mut elem = PdfDictionary::new();
    elem.insert("S", PdfValue::Name(PdfName::new("P")));
    elem.insert("K", PdfValue::Array(PdfArray::from(vec![PdfValue::Dictionary(mcr)])));
    root_dict.insert("K", PdfValue::Dictionary(elem));
    let mut resolver = ObjectNodeMap::new();
    resolver.insert(ObjectId::new(9, 0), page_id);
    let mut parser = StructTreeParser::new(&mut ast, &resolver);
    parser
        .parse_struct_tree_root(&root_dict)
        .expect("structure tree should parse");
    let element = parser
        .get_structure_for_mcid(page_id, 3)
        .expect("the marked content should be linked");
    assert_eq!(parser.get_structure_for_mcid(page_id, 4), None);

    let mut props = PdfDictionary::new();
    props.insert("MCID", PdfValue::Integer(3));
    let operators = vec![
        ContentOperator::BeginMarkedContentWithProps("P".to_string(), MarkedContentProps::Dictionary(props)),
        ContentOperator::ShowText(b"Hello".to_vec()),
        ContentOperator::ShowText(b"world".to_vec()),
        ContentOperator::EndMarkedContent,
    ];
    parser.link_content_to_structure(page_id, &operators);
    assert_eq!(
        parser.get_text_for_structure(element),
        vec!["Hello world".to_string()]
    );
    drop(parser);
    let node = ast.get_node(element).unwrap();
    assert_eq!(node.node_type, NodeType::StructElem);
    assert_eq!(
        node.metadata.get_property("struct_type").map(String::as_str),
        Some("P")
    );
    assert_eq!(
        node.metadata.get_property("mcid_3_content").map(String::as_str),
        Some("Hello world")
    );
}
