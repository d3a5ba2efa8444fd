//! The names node and edge types are written under, and reading them back.
use crate::ast::{EdgeType, NodeType};
use crate::text::concat2;
use crate::types::str_equal;
use crate::types::ObjectId;
use vstd::prelude::*;

verus! {

/// The name a node type is written under.
pub open spec fn spec_node_type_name(t: NodeType) -> Seq<char> {
    match t {
        NodeType::Root => "Root"@,
        NodeType::Catalog => "Catalog"@,
        NodeType::Pages => "Pages"@,
        NodeType::Page => "Page"@,
        NodeType::Resource => "Resource"@,
        NodeType::Font => "Font"@,
        NodeType::Image => "Image"@,
        NodeType::ContentStream => "ContentStream"@,
        NodeType::Annotation => "Annotation"@,
        NodeType::Action => "Action"@,
        NodeType::Metadata => "Metadata"@,
        NodeType::EmbeddedFile => "EmbeddedFile"@,
        NodeType::Signature => "Signature"@,
        NodeType::Object(_) => "Object"@,
        NodeType::Unknown => "Unknown"@,
        NodeType::Stream => "Stream"@,
        NodeType::FilteredStream => "FilteredStream"@,
        NodeType::DecodedStream => "DecodedStream"@,
        NodeType::XObject => "XObject"@,
        NodeType::FormXObject => "FormXObject"@,
        NodeType::ImageXObject => "ImageXObject"@,
        NodeType::Type1Font => "Type1Font"@,
        NodeType::TrueTypeFont => "TrueTypeFont"@,
        NodeType::Type3Font => "Type3Font"@,
        NodeType::CIDFont => "CIDFont"@,
        NodeType::JavaScriptAction => "JavaScriptAction"@,
        NodeType::GoToAction => "GoToAction"@,
        NodeType::URIAction => "URIAction"@,
        NodeType::LaunchAction => "LaunchAction"@,
        NodeType::SubmitFormAction => "SubmitFormAction"@,
        NodeType::AcroForm => "AcroForm"@,
        NodeType::Field => "Field"@,
        NodeType::Encrypt => "Encrypt"@,
        NodeType::Permission => "Permission"@,
        NodeType::ContentOperator => "ContentOperator"@,
        NodeType::TextOperator => "TextOperator"@,
        NodeType::GraphicsOperator => "GraphicsOperator"@,
        NodeType::EmbeddedJS => "EmbeddedJS"@,
        NodeType::SuspiciousAction => "SuspiciousAction"@,
        NodeType::ExternalReference => "ExternalReference"@,
        NodeType::EncodedContent => "EncodedContent"@,
        NodeType::Outline => "Outline"@,
        NodeType::OutlineItem => "OutlineItem"@,
        NodeType::NameTree => "NameTree"@,
        NodeType::StructTreeRoot => "StructTreeRoot"@,
        NodeType::StructElem => "StructElem"@,
        NodeType::ColorSpace => "ColorSpace"@,
        NodeType::ICCBased => "ICCBased"@,
        NodeType::Separation => "Separation"@,
        NodeType::DeviceN => "DeviceN"@,
        NodeType::Indexed => "Indexed"@,
        NodeType::Pattern => "Pattern"@,
        NodeType::Shading => "Shading"@,
        NodeType::ExtGState => "ExtGState"@,
        NodeType::Function => "Function"@,
        NodeType::CMap => "CMap"@,
        NodeType::ToUnicode => "ToUnicode"@,
        NodeType::Encoding => "Encoding"@,
        NodeType::OCG => "OCG"@,
        NodeType::OCProperties => "OCProperties"@,
        NodeType::OCMD => "OCMD"@,
        NodeType::RichMedia => "RichMedia"@,
        NodeType::Rendition => "Rendition"@,
        NodeType::Screen => "Screen"@,
        NodeType::Sound => "Sound"@,
        NodeType::Movie => "Movie"@,
        NodeType::ThreeD => "ThreeD"@,
        NodeType::U3D => "U3D"@,
        NodeType::PRC => "PRC"@,
        NodeType::OutputIntent => "OutputIntent"@,
        NodeType::LinkAnnotation => "LinkAnnotation"@,
        NodeType::WidgetAnnotation => "WidgetAnnotation"@,
        NodeType::FileAttachmentAnnotation => "FileAttachmentAnnotation"@,
        NodeType::InlineImage => "InlineImage"@,
        NodeType::Form => "Form"@,
        NodeType::Structure => "Structure"@,
        NodeType::Multimedia => "Multimedia"@,
        NodeType::JavaScript => "JavaScript"@,
        NodeType::Encryption => "Encryption"@,
        NodeType::Content => "Content"@,
        NodeType::Other => "Other"@,
    }
}

/// A few characters of a name, which tell the names of node types apart.
pub open spec fn name_key(s: Seq<char>) -> (int, char, char, char) {
    (s.len() as int, s[0], s[2], s[if s.len() > 4 { 4 } else { s.len() - 1 }])
}

/// The node type whose name has key `k`; an object node with a placeholder
/// object number.
pub open spec fn type_with_key(k: (int, char, char, char)) -> Option<NodeType> {
    if k == (4int, 'R', 'o', 't') {
        Some(NodeType::Root)
    } else if k == (7int, 'C', 't', 'l') {
        Some(NodeType::Catalog)
    } else if k == (5int, 'P', 'g', 's') {
        Some(NodeType::Pages)
    } else if k == (4int, 'P', 'g', 'e') {
        Some(NodeType::Page)
    } else if k == (8int, 'R', 's', 'u') {
        Some(NodeType::Resource)
    } else if k == (4int, 'F', 'n', 't') {
        Some(NodeType::Font)
    } else if k == (5int, 'I', 'a', 'e') {
        Some(NodeType::Image)
    } else if k == (13int, 'C', 'n', 'e') {
        Some(NodeType::ContentStream)
    } else if k == (10int, 'A', 'n', 't') {
        Some(NodeType::Annotation)
    } else if k == (6int, 'A', 't', 'o') {
        Some(NodeType::Action)
    } else if k == (8int, 'M', 't', 'd') {
        Some(NodeType::Metadata)
    } else if k == (12int, 'E', 'b', 'd') {
        Some(NodeType::EmbeddedFile)
    } else if k == (9int, 'S', 'g', 'a') {
        Some(NodeType::Signature)
    } else if k == (6int, 'O', 'j', 'c') {
        Some(NodeType::Object(ObjectId { number: 0, generation: 0 }))
    } else if k == (7int, 'U', 'k', 'o') {
        Some(NodeType::Unknown)
    } else if k == (6int, 'S', 'r', 'a') {
        Some(NodeType::Stream)
    } else if k == (14int, 'F', 'l', 'e') {
        Some(NodeType::FilteredStream)
    } else if k == (13int, 'D', 'c', 'd') {
        Some(NodeType::DecodedStream)
    } else if k == (7int, 'X', 'b', 'e') {
        Some(NodeType::XObject)
    } else if k == (11int, 'F', 'r', 'X') {
        Some(NodeType::FormXObject)
    } else if k == (12int, 'I', 'a', 'e') {
        Some(NodeType::ImageXObject)
    } else if k == (9int, 'T', 'p', '1') {
        Some(NodeType::Type1Font)
    } else if k == (12int, 'T', 'u', 'T') {
        Some(NodeType::TrueTypeFont)
    } else if k == (9int, 'T', 'p', '3') {
        Some(NodeType::Type3Font)
    } else if k == (7int, 'C', 'D', 'o') {
        Some(NodeType::CIDFont)
    } else if k == (16int, 'J', 'v', 'S') {
        Some(NodeType::JavaScriptAction)
    } else if k == (10int, 'G', 'T', 'A') {
        Some(NodeType::GoToAction)
    } else if k == (9int, 'U', 'I', 'c') {
        Some(NodeType::URIAction)
    } else if k == (12int, 'L', 'u', 'c') {
        Some(NodeType::LaunchAction)
    } else if k == (16int, 'S', 'b', 'i') {
        Some(NodeType::SubmitFormAction)
    } else if k == (8int, 'A', 'r', 'F') {
        Some(NodeType::AcroForm)
    } else if k == (5int, 'F', 'e', 'd') {
        Some(NodeType::Field)
    } else if k == (7int, 'E', 'c', 'y') {
        Some(NodeType::Encrypt)
    } else if k == (10int, 'P', 'r', 'i') {
        Some(NodeType::Permission)
    } else if k == (15int, 'C', 'n', 'e') {
        Some(NodeType::ContentOperator)
    } else if k == (12int, 'T', 'x', 'O') {
        Some(NodeType::TextOperator)
    } else if k == (16int, 'G', 'a', 'h') {
        Some(NodeType::GraphicsOperator)
    } else if k == (10int, 'E', 'b', 'd') {
        Some(NodeType::EmbeddedJS)
    } else if k == (16int, 'S', 's', 'i') {
        Some(NodeType::SuspiciousAction)
    } else if k == (17int, 'E', 't', 'r') {
        Some(NodeType::ExternalReference)
    } else if k == (14int, 'E', 'c', 'd') {
        Some(NodeType::EncodedContent)
    } else if k == (7int, 'O', 't', 'i') {
        Some(NodeType::Outline)
    } else if k == (11int, 'O', 't', 'i') {
        Some(NodeType::OutlineItem)
    } else if k == (8int, 'N', 'm', 'T') {
        Some(NodeType::NameTree)
    } else if k == (14int, 'S', 'r', 'c') {
        Some(NodeType::StructTreeRoot)
    } else if k == (10int, 'S', 'r', 'c') {
        Some(NodeType::StructElem)
    } else if k == (10int, 'C', 'l', 'r') {
        Some(NodeType::ColorSpace)
    } else if k == (8int, 'I', 'C', 'a') {
        Some(NodeType::ICCBased)
    } else if k == (10int, 'S', 'p', 'r') {
        Some(NodeType::Separation)
    } else if k == (7int, 'D', 'v', 'c') {
        Some(NodeType::DeviceN)
    } else if k == (7int, 'I', 'd', 'x') {
        Some(NodeType::Indexed)
    } else if k == (7int, 'P', 't', 'e') {
        Some(NodeType::Pattern)
    } else if k == (7int, 'S', 'a', 'i') {
        Some(NodeType::Shading)
    } else if k == (9int, 'E', 't', 'S') {
        Some(NodeType::ExtGState)
    } else if k == (8int, 'F', 'n', 't') {
        Some(NodeType::Function)
    } else if k == (4int, 'C', 'a', 'p') {
        Some(NodeType::CMap)
    } else if k == (9int, 'T', 'U', 'i') {
        Some(NodeType::ToUnicode)
    } else if k == (8int, 'E', 'c', 'd') {
        Some(NodeType::Encoding)
    } else if k == (3int, 'O', 'G', 'G') {
        Some(NodeType::OCG)
    } else if k == (12int, 'O', 'P', 'o') {
        Some(NodeType::OCProperties)
    } else if k == (4int, 'O', 'M', 'D') {
        Some(NodeType::OCMD)
    } else if k == (9int, 'R', 'c', 'M') {
        Some(NodeType::RichMedia)
    } else if k == (9int, 'R', 'n', 'i') {
        Some(NodeType::Rendition)
    } else if k == (6int, 'S', 'r', 'e') {
        Some(NodeType::Screen)
    } else if k == (5int, 'S', 'u', 'd') {
        Some(NodeType::Sound)
    } else if k == (5int, 'M', 'v', 'e') {
        Some(NodeType::Movie)
    } else if k == (6int, 'T', 'r', 'e') {
        Some(NodeType::ThreeD)
    } else if k == (3int, 'U', 'D', 'D') {
        Some(NodeType::U3D)
    } else if k == (3int, 'P', 'C', 'C') {
        Some(NodeType::PRC)
    } else if k == (12int, 'O', 't', 'u') {
        Some(NodeType::OutputIntent)
    } else if k == (14int, 'L', 'n', 'A') {
        Some(NodeType::LinkAnnotation)
    } else if k == (16int, 'W', 'd', 'e') {
        Some(NodeType::WidgetAnnotation)
    } else if k == (24int, 'F', 'l', 'A') {
        Some(NodeType::FileAttachmentAnnotation)
    } else if k == (11int, 'I', 'l', 'n') {
        Some(NodeType::InlineImage)
    } else if k == (4int, 'F', 'r', 'm') {
        Some(NodeType::Form)
    } else if k == (9int, 'S', 'r', 'c') {
        Some(NodeType::Structure)
    } else if k == (10int, 'M', 'l', 'i') {
        Some(NodeType::Multimedia)
    } else if k == (10int, 'J', 'v', 'S') {
        Some(NodeType::JavaScript)
    } else if k == (10int, 'E', 'c', 'y') {
        Some(NodeType::Encryption)
    } else if k == (7int, 'C', 'n', 'e') {
        Some(NodeType::Content)
    } else if k == (5int, 'O', 'h', 'r') {
        Some(NodeType::Other)
    } else {
        None
    }
}

/// A node type with a placeholder in place of its object number.
pub open spec fn canonical_type(t: NodeType) -> NodeType {
    match t {
        NodeType::Object(_) => NodeType::Object(ObjectId { number: 0, generation: 0 }),
        _ => t,
    }
}

/// The node type written under `s`, with the object it stands for where
/// that is an object node; or why there is none.
pub open spec fn spec_type_of_name(s: Seq<char>, object_id: Option<(u32, u16)>) -> Result<NodeType, Seq<char>> {
    match type_with_key(name_key(s)) {
        Some(t) => if spec_node_type_name(t) == s {
            match t {
                NodeType::Object(_) => match object_id {
                    Some(p) => Ok(NodeType::Object(ObjectId { number: p.0, generation: p.1 })),
                    None => Err("Object node is missing its object_id"@),
                },
                _ => Ok(t),
            }
        } else {
            Err("Unknown node type: "@ + s)
        },
        None => Err("Unknown node type: "@ + s),
    }
}

/// The object an object node stands for.
pub open spec fn spec_object_of_type(t: NodeType) -> Option<(u32, u16)> {
    match t {
        NodeType::Object(id) => Some((id.number, id.generation)),
        _ => None,
    }
}

proof fn lemma_name_key(t: NodeType)
    ensures
        type_with_key(name_key(spec_node_type_name(t))) == Some(canonical_type(t)),
{
    match t {
        NodeType::Root => {
            reveal_strlit("Root");
        },
        NodeType::Catalog => {
            reveal_strlit("Catalog");
        },
        NodeType::Pages => {
            reveal_strlit("Pages");
        },
        NodeType::Page => {
            reveal_strlit("Page");
        },
        NodeType::Resource => {
            reveal_strlit("Resource");
        },
        NodeType::Font => {
            reveal_strlit("Font");
        },
        NodeType::Image => {
            reveal_strlit("Image");
        },
        NodeType::ContentStream => {
            reveal_strlit("ContentStream");
        },
        NodeType::Annotation => {
            reveal_strlit("Annotation");
        },
        NodeType::Action => {
            reveal_strlit("Action");
        },
        NodeType::Metadata => {
            reveal_strlit("Metadata");
        },
        NodeType::EmbeddedFile => {
            reveal_strlit("EmbeddedFile");
        },
        NodeType::Signature => {
            reveal_strlit("Signature");
        },
        NodeType::Object(_) => {
            reveal_strlit("Object");
        },
        NodeType::Unknown => {
            reveal_strlit("Unknown");
        },
        NodeType::Stream => {
            reveal_strlit("Stream");
        },
        NodeType::FilteredStream => {
            reveal_strlit("FilteredStream");
        },
        NodeType::DecodedStream => {
            reveal_strlit("DecodedStream");
        },
        NodeType::XObject => {
            reveal_strlit("XObject");
        },
        NodeType::FormXObject => {
            reveal_strlit("FormXObject");
        },
        NodeType::ImageXObject => {
            reveal_strlit("ImageXObject");
        },
        NodeType::Type1Font => {
            reveal_strlit("Type1Font");
        },
        NodeType::TrueTypeFont => {
            reveal_strlit("TrueTypeFont");
        },
        NodeType::Type3Font => {
            reveal_strlit("Type3Font");
        },
        NodeType::CIDFont => {
            reveal_strlit("CIDFont");
        },
        NodeType::JavaScriptAction => {
            reveal_strlit("JavaScriptAction");
        },
        NodeType::GoToAction => {
            reveal_strlit("GoToAction");
        },
        NodeType::URIAction => {
            reveal_strlit("URIAction");
        },
        NodeType::LaunchAction => {
            reveal_strlit("LaunchAction");
        },
        NodeType::SubmitFormAction => {
            reveal_strlit("SubmitFormAction");
        },
        NodeType::AcroForm => {
            reveal_strlit("AcroForm");
        },
        NodeType::Field => {
            reveal_strlit("Field");
        },
        NodeType::Encrypt => {
            reveal_strlit("Encrypt");
        },
        NodeType::Permission => {
            reveal_strlit("Permission");
        },
        NodeType::ContentOperator => {
            reveal_strlit("ContentOperator");
        },
        NodeType::TextOperator => {
            reveal_strlit("TextOperator");
        },
        NodeType::GraphicsOperator => {
            reveal_strlit("GraphicsOperator");
        },
        NodeType::EmbeddedJS => {
            reveal_strlit("EmbeddedJS");
        },
        NodeType::SuspiciousAction => {
            reveal_strlit("SuspiciousAction");
        },
        NodeType::ExternalReference => {
            reveal_strlit("ExternalReference");
        },
        NodeType::EncodedContent => {
            reveal_strlit("EncodedContent");
        },
        NodeType::Outline => {
            reveal_strlit("Outline");
        },
        NodeType::OutlineItem => {
            reveal_strlit("OutlineItem");
        },
        NodeType::NameTree => {
            reveal_strlit("NameTree");
        },
        NodeType::StructTreeRoot => {
            reveal_strlit("StructTreeRoot");
        },
        NodeType::StructElem => {
            reveal_strlit("StructElem");
        },
        NodeType::ColorSpace => {
            reveal_strlit("ColorSpace");
        },
        NodeType::ICCBased => {
            reveal_strlit("ICCBased");
        },
        NodeType::Separation => {
            reveal_strlit("Separation");
        },
        NodeType::DeviceN => {
            reveal_strlit("DeviceN");
        },
        NodeType::Indexed => {
            reveal_strlit("Indexed");
        },
        NodeType::Pattern => {
            reveal_strlit("Pattern");
        },
        NodeType::Shading => {
            reveal_strlit("Shading");
        },
        NodeType::ExtGState => {
            reveal_strlit("ExtGState");
        },
        NodeType::Function => {
            reveal_strlit("Function");
        },
        NodeType::CMap => {
            reveal_strlit("CMap");
        },
        NodeType::ToUnicode => {
            reveal_strlit("ToUnicode");
        },
        NodeType::Encoding => {
            reveal_strlit("Encoding");
        },
        NodeType::OCG => {
            reveal_strlit("OCG");
        },
        NodeType::OCProperties => {
            reveal_strlit("OCProperties");
        },
        NodeType::OCMD => {
            reveal_strlit("OCMD");
        },
        NodeType::RichMedia => {
            reveal_strlit("RichMedia");
        },
        NodeType::Rendition => {
            reveal_strlit("Rendition");
        },
        NodeType::Screen => {
            reveal_strlit("Screen");
        },
        NodeType::Sound => {
            reveal_strlit("Sound");
        },
        NodeType::Movie => {
            reveal_strlit("Movie");
        },
        NodeType::ThreeD => {
            reveal_strlit("ThreeD");
        },
        NodeType::U3D => {
            reveal_strlit("U3D");
        },
        NodeType::PRC => {
            reveal_strlit("PRC");
        },
        NodeType::OutputIntent => {
            reveal_strlit("OutputIntent");
        },
        NodeType::LinkAnnotation => {
            reveal_strlit("LinkAnnotation");
        },
        NodeType::WidgetAnnotation => {
            reveal_strlit("WidgetAnnotation");
        },
        NodeType::FileAttachmentAnnotation => {
            reveal_strlit("FileAttachmentAnnotation");
        },
        NodeType::InlineImage => {
            reveal_strlit("InlineImage");
        },
        NodeType::Form => {
            reveal_strlit("Form");
        },
        NodeType::Structure => {
            reveal_strlit("Structure");
        },
        NodeType::Multimedia => {
            reveal_strlit("Multimedia");
        },
        NodeType::JavaScript => {
            reveal_strlit("JavaScript");
        },
        NodeType::Encryption => {
            reveal_strlit("Encryption");
        },
        NodeType::Content => {
            reveal_strlit("Content");
        },
        NodeType::Other => {
            reveal_strlit("Other");
        },
    }
}

/// A node type read back from its name, with the object of an object node,
/// is the node type written.
pub proof fn lemma_node_type_name_round_trip(t: NodeType)
    ensures
        spec_type_of_name(spec_node_type_name(t), spec_object_of_type(t)) == Ok::<NodeType, Seq<char>>(t),
{
    lemma_name_key(t);
}

/// Different node types are written under different names.
pub proof fn lemma_node_type_names_differ(a: NodeType, b: NodeType)
    requires
        spec_node_type_name(a) == spec_node_type_name(b),
        spec_object_of_type(a) == spec_object_of_type(b),
    ensures
        a == b,
{
    lemma_node_type_name_round_trip(a);
    lemma_node_type_name_round_trip(b);
}


/// The name a node type is written under.
pub fn node_type_name(t: &NodeType) -> (r: &'static str)
    ensures
        r@ == spec_node_type_name(*t),
{
    match t {
        NodeType::Root => "Root",
        NodeType::Catalog => "Catalog",
        NodeType::Pages => "Pages",
        NodeType::Page => "Page",
        NodeType::Resource => "Resource",
        NodeType::Font => "Font",
        NodeType::Image => "Image",
        NodeType::ContentStream => "ContentStream",
        NodeType::Annotation => "Annotation",
        NodeType::Action => "Action",
        NodeType::Metadata => "Metadata",
        NodeType::EmbeddedFile => "EmbeddedFile",
        NodeType::Signature => "Signature",
        NodeType::Object(_) => "Object",
        NodeType::Unknown => "Unknown",
        NodeType::Stream => "Stream",
        NodeType::FilteredStream => "FilteredStream",
        NodeType::DecodedStream => "DecodedStream",
        NodeType::XObject => "XObject",
        NodeType::FormXObject => "FormXObject",
        NodeType::ImageXObject => "ImageXObject",
        NodeType::Type1Font => "Type1Font",
        NodeType::TrueTypeFont => "TrueTypeFont",
        NodeType::Type3Font => "Type3Font",
        NodeType::CIDFont => "CIDFont",
        NodeType::JavaScriptAction => "JavaScriptAction",
        NodeType::GoToAction => "GoToAction",
        NodeType::URIAction => "URIAction",
        NodeType::LaunchAction => "LaunchAction",
        NodeType::SubmitFormAction => "SubmitFormAction",
        NodeType::AcroForm => "AcroForm",
        NodeType::Field => "Field",
        NodeType::Encrypt => "Encrypt",
        NodeType::Permission => "Permission",
        NodeType::ContentOperator => "ContentOperator",
        NodeType::TextOperator => "TextOperator",
        NodeType::GraphicsOperator => "GraphicsOperator",
        NodeType::EmbeddedJS => "EmbeddedJS",
        NodeType::SuspiciousAction => "SuspiciousAction",
        NodeType::ExternalReference => "ExternalReference",
        NodeType::EncodedContent => "EncodedContent",
        NodeType::Outline => "Outline",
        NodeType::OutlineItem => "OutlineItem",
        NodeType::NameTree => "NameTree",
        NodeType::StructTreeRoot => "StructTreeRoot",
        NodeType::StructElem => "StructElem",
        NodeType::ColorSpace => "ColorSpace",
        NodeType::ICCBased => "ICCBased",
        NodeType::Separation => "Separation",
        NodeType::DeviceN => "DeviceN",
        NodeType::Indexed => "Indexed",
        NodeType::Pattern => "Pattern",
        NodeType::Shading => "Shading",
        NodeType::ExtGState => "ExtGState",
        NodeType::Function => "Function",
        NodeType::CMap => "CMap",
        NodeType::ToUnicode => "ToUnicode",
        NodeType::Encoding => "Encoding",
        NodeType::OCG => "OCG",
        NodeType::OCProperties => "OCProperties",
        NodeType::OCMD => "OCMD",
        NodeType::RichMedia => "RichMedia",
        NodeType::Rendition => "Rendition",
        NodeType::Screen => "Screen",
        NodeType::Sound => "Sound",
        NodeType::Movie => "Movie",
        NodeType::ThreeD => "ThreeD",
        NodeType::U3D => "U3D",
        NodeType::PRC => "PRC",
        NodeType::OutputIntent => "OutputIntent",
        NodeType::LinkAnnotation => "LinkAnnotation",
        NodeType::WidgetAnnotation => "WidgetAnnotation",
        NodeType::FileAttachmentAnnotation => "FileAttachmentAnnotation",
        NodeType::InlineImage => "InlineImage",
        NodeType::Form => "Form",
        NodeType::Structure => "Structure",
        NodeType::Multimedia => "Multimedia",
        NodeType::JavaScript => "JavaScript",
        NodeType::Encryption => "Encryption",
        NodeType::Content => "Content",
        NodeType::Other => "Other",
    }
}

/// The node type written under `s`, with the object it stands for where
/// that is an object node; or why there is none.
pub fn parse_node_type(s: &str, object_id: Option<(u32, u16)>) -> (r: Result<NodeType, String>)
    ensures
        match r {
            Ok(t) => spec_type_of_name(s@, object_id) == Ok::<NodeType, Seq<char>>(t),
            Err(e) => spec_type_of_name(s@, object_id) == Err::<NodeType, Seq<char>>(e@),
        },
{
    if str_equal(s, "Root") {
        proof {
            lemma_name_key(NodeType::Root);
        }
        return Ok(NodeType::Root);
    }
    if str_equal(s, "Catalog") {
        proof {
            lemma_name_key(NodeType::Catalog);
        }
        return Ok(NodeType::Catalog);
    }
    if str_equal(s, "Pages") {
        proof {
            lemma_name_key(NodeType::Pages);
        }
        return Ok(NodeType::Pages);
    }
    if str_equal(s, "Page") {
        proof {
            lemma_name_key(NodeType::Page);
        }
        return Ok(NodeType::Page);
    }
    if str_equal(s, "Resource") {
        proof {
            lemma_name_key(NodeType::Resource);
        }
        return Ok(NodeType::Resource);
    }
    if str_equal(s, "Font") {
        proof {
            lemma_name_key(NodeType::Font);
        }
        return Ok(NodeType::Font);
    }
    if str_equal(s, "Image") {
        proof {
            lemma_name_key(NodeType::Image);
        }
        return Ok(NodeType::Image);
    }
    if str_equal(s, "ContentStream") {
        proof {
            lemma_name_key(NodeType::ContentStream);
        }
        return Ok(NodeType::ContentStream);
    }
    if str_equal(s, "Annotation") {
        proof {
            lemma_name_key(NodeType::Annotation);
        }
        return Ok(NodeType::Annotation);
    }
    if str_equal(s, "Action") {
        proof {
            lemma_name_key(NodeType::Action);
        }
        return Ok(NodeType::Action);
    }
    if str_equal(s, "Metadata") {
        proof {
            lemma_name_key(NodeType::Metadata);
        }
        return Ok(NodeType::Metadata);
    }
    if str_equal(s, "EmbeddedFile") {
        proof {
            lemma_name_key(NodeType::EmbeddedFile);
        }
        return Ok(NodeType::EmbeddedFile);
    }
    if str_equal(s, "Signature") {
        proof {
            lemma_name_key(NodeType::Signature);
        }
        return Ok(NodeType::Signature);
    }
    if str_equal(s, "Object") {
        proof {
            lemma_name_key(NodeType::Object(ObjectId { number: 0, generation: 0 }));
        }
        return match object_id {
            Some((number, generation)) => Ok(NodeType::Object(ObjectId { number, generation })),
            None => Err(String::from_str("Object node is missing its object_id")),
        };
    }
    if str_equal(s, "Unknown") {
        proof {
            lemma_name_key(NodeType::Unknown);
        }
        return Ok(NodeType::Unknown);
    }
    if str_equal(s, "Stream") {
        proof {
            lemma_name_key(NodeType::Stream);
        }
        return Ok(NodeType::Stream);
    }
    if str_equal(s, "FilteredStream") {
        proof {
            lemma_name_key(NodeType::FilteredStream);
        }
        return Ok(NodeType::FilteredStream);
    }
    if str_equal(s, "DecodedStream") {
        proof {
            lemma_name_key(NodeType::DecodedStream);
        }
        return Ok(NodeType::DecodedStream);
    }
    if str_equal(s, "XObject") {
        proof {
            lemma_name_key(NodeType::XObject);
        }
        return Ok(NodeType::XObject);
    }
    if str_equal(s, "FormXObject") {
        proof {
            lemma_name_key(NodeType::FormXObject);
        }
        return Ok(NodeType::FormXObject);
    }
    if str_equal(s, "ImageXObject") {
        proof {
            lemma_name_key(NodeType::ImageXObject);
        }
        return Ok(NodeType::ImageXObject);
    }
    if str_equal(s, "Type1Font") {
        proof {
            lemma_name_key(NodeType::Type1Font);
        }
        return Ok(NodeType::Type1Font);
    }
    if str_equal(s, "TrueTypeFont") {
        proof {
            lemma_name_key(NodeType::TrueTypeFont);
        }
        return Ok(NodeType::TrueTypeFont);
    }
    if str_equal(s, "Type3Font") {
        proof {
            lemma_name_key(NodeType::Type3Font);
        }
        return Ok(NodeType::Type3Font);
    }
    if str_equal(s, "CIDFont") {
        proof {
            lemma_name_key(NodeType::CIDFont);
        }
        return Ok(NodeType::CIDFont);
    }
    if str_equal(s, "JavaScriptAction") {
        proof {
            lemma_name_key(NodeType::JavaScriptAction);
        }
        return Ok(NodeType::JavaScriptAction);
    }
    if str_equal(s, "GoToAction") {
        proof {
            lemma_name_key(NodeType::GoToAction);
        }
        return Ok(NodeType::GoToAction);
    }
    if str_equal(s, "URIAction") {
        proof {
            lemma_name_key(NodeType::URIAction);
        }
        return Ok(NodeType::URIAction);
    }
    if str_equal(s, "LaunchAction") {
        proof {
            lemma_name_key(NodeType::LaunchAction);
        }
        return Ok(NodeType::LaunchAction);
    }
    if str_equal(s, "SubmitFormAction") {
        proof {
            lemma_name_key(NodeType::SubmitFormAction);
        }
        return Ok(NodeType::SubmitFormAction);
    }
    if str_equal(s, "AcroForm") {
        proof {
            lemma_name_key(NodeType::AcroForm);
        }
        return Ok(NodeType::AcroForm);
    }
    if str_equal(s, "Field") {
        proof {
            lemma_name_key(NodeType::Field);
        }
        return Ok(NodeType::Field);
    }
    if str_equal(s, "Encrypt") {
        proof {
            lemma_name_key(NodeType::Encrypt);
        }
        return Ok(NodeType::Encrypt);
    }
    if str_equal(s, "Permission") {
        proof {
            lemma_name_key(NodeType::Permission);
        }
        return Ok(NodeType::Permission);
    }
    if str_equal(s, "ContentOperator") {
        proof {
            lemma_name_key(NodeType::ContentOperator);
        }
        return Ok(NodeType::ContentOperator);
    }
    if str_equal(s, "TextOperator") {
        proof {
            lemma_name_key(NodeType::TextOperator);
        }
        return Ok(NodeType::TextOperator);
    }
    if str_equal(s, "GraphicsOperator") {
        proof {
            lemma_name_key(NodeType::GraphicsOperator);
        }
        return Ok(NodeType::GraphicsOperator);
    }
    if str_equal(s, "EmbeddedJS") {
        proof {
            lemma_name_key(NodeType::EmbeddedJS);
        }
        return Ok(NodeType::EmbeddedJS);
    }
    if str_equal(s, "SuspiciousAction") {
        proof {
            lemma_name_key(NodeType::SuspiciousAction);
        }
        return Ok(NodeType::SuspiciousAction);
    }
    if str_equal(s, "ExternalReference") {
        proof {
            lemma_name_key(NodeType::ExternalReference);
        }
        return Ok(NodeType::ExternalReference);
    }
    if str_equal(s, "EncodedContent") {
        proof {
            lemma_name_key(NodeType::EncodedContent);
        }
        return Ok(NodeType::EncodedContent);
    }
    if str_equal(s, "Outline") {
        proof {
            lemma_name_key(NodeType::Outline);
        }
        return Ok(NodeType::Outline);
    }
    if str_equal(s, "OutlineItem") {
        proof {
            lemma_name_key(NodeType::OutlineItem);
        }
        return Ok(NodeType::OutlineItem);
    }
    if str_equal(s, "NameTree") {
        proof {
            lemma_name_key(NodeType::NameTree);
        }
        return Ok(NodeType::NameTree);
    }
    if str_equal(s, "StructTreeRoot") {
        proof {
            lemma_name_key(NodeType::StructTreeRoot);
        }
        return Ok(NodeType::StructTreeRoot);
    }
    if str_equal(s, "StructElem") {
        proof {
            lemma_name_key(NodeType::StructElem);
        }
        return Ok(NodeType::StructElem);
    }
    if str_equal(s, "ColorSpace") {
        proof {
            lemma_name_key(NodeType::ColorSpace);
        }
        return Ok(NodeType::ColorSpace);
    }
    if str_equal(s, "ICCBased") {
        proof {
            lemma_name_key(NodeType::ICCBased);
        }
        return Ok(NodeType::ICCBased);
    }
    if str_equal(s, "Separation") {
        proof {
            lemma_name_key(NodeType::Separation);
        }
        return Ok(NodeType::Separation);
    }
    if str_equal(s, "DeviceN") {
        proof {
            lemma_name_key(NodeType::DeviceN);
        }
        return Ok(NodeType::DeviceN);
    }
    if str_equal(s, "Indexed") {
        proof {
            lemma_name_key(NodeType::Indexed);
        }
        return Ok(NodeType::Indexed);
    }
    if str_equal(s, "Pattern") {
        proof {
            lemma_name_key(NodeType::Pattern);
        }
        return Ok(NodeType::Pattern);
    }
    if str_equal(s, "Shading") {
        proof {
            lemma_name_key(NodeType::Shading);
        }
        return Ok(NodeType::Shading);
    }
    if str_equal(s, "ExtGState") {
        proof {
            lemma_name_key(NodeType::ExtGState);
        }
        return Ok(NodeType::ExtGState);
    }
    if str_equal(s, "Function") {
        proof {
            lemma_name_key(NodeType::Function);
        }
        return Ok(NodeType::Function);
    }
    if str_equal(s, "CMap") {
        proof {
            lemma_name_key(NodeType::CMap);
        }
        return Ok(NodeType::CMap);
    }
    if str_equal(s, "ToUnicode") {
        proof {
            lemma_name_key(NodeType::ToUnicode);
        }
        return Ok(NodeType::ToUnicode);
    }
    if str_equal(s, "Encoding") {
        proof {
            lemma_name_key(NodeType::Encoding);
        }
        return Ok(NodeType::Encoding);
    }
    if str_equal(s, "OCG") {
        proof {
            lemma_name_key(NodeType::OCG);
        }
        return Ok(NodeType::OCG);
    }
    if str_equal(s, "OCProperties") {
        proof {
            lemma_name_key(NodeType::OCProperties);
        }
        return Ok(NodeType::OCProperties);
    }
    if str_equal(s, "OCMD") {
        proof {
            lemma_name_key(NodeType::OCMD);
        }
        return Ok(NodeType::OCMD);
    }
    if str_equal(s, "RichMedia") {
        proof {
            lemma_name_key(NodeType::RichMedia);
        }
        return Ok(NodeType::RichMedia);
    }
    if str_equal(s, "Rendition") {
        proof {
            lemma_name_key(NodeType::Rendition);
        }
        return Ok(NodeType::Rendition);
    }
    if str_equal(s, "Screen") {
        proof {
            lemma_name_key(NodeType::Screen);
        }
        return Ok(NodeType::Screen);
    }
    if str_equal(s, "Sound") {
        proof {
            lemma_name_key(NodeType::Sound);
        }
        return Ok(NodeType::Sound);
    }
    if str_equal(s, "Movie") {
        proof {
            lemma_name_key(NodeType::Movie);
        }
        return Ok(NodeType::Movie);
    }
    if str_equal(s, "ThreeD") {
        proof {
            lemma_name_key(NodeType::ThreeD);
        }
        return Ok(NodeType::ThreeD);
    }
    if str_equal(s, "U3D") {
        proof {
            lemma_name_key(NodeType::U3D);
        }
        return Ok(NodeType::U3D);
    }
    if str_equal(s, "PRC") {
        proof {
            lemma_name_key(NodeType::PRC);
        }
        return Ok(NodeType::PRC);
    }
    if str_equal(s, "OutputIntent") {
        proof {
            lemma_name_key(NodeType::OutputIntent);
        }
        return Ok(NodeType::OutputIntent);
    }
    if str_equal(s, "LinkAnnotation") {
        proof {
            lemma_name_key(NodeType::LinkAnnotation);
        }
        return Ok(NodeType::LinkAnnotation);
    }
    if str_equal(s, "WidgetAnnotation") {
        proof {
            lemma_name_key(NodeType::WidgetAnnotation);
        }
        return Ok(NodeType::WidgetAnnotation);
    }
    if str_equal(s, "FileAttachmentAnnotation") {
        proof {
            lemma_name_key(NodeType::FileAttachmentAnnotation);
        }
        return Ok(NodeType::FileAttachmentAnnotation);
    }
    if str_equal(s, "InlineImage") {
        proof {
            lemma_name_key(NodeType::InlineImage);
        }
        return Ok(NodeType::InlineImage);
    }
    if str_equal(s, "Form") {
        proof {
            lemma_name_key(NodeType::Form);
        }
        return Ok(NodeType::Form);
    }
    if str_equal(s, "Structure") {
        proof {
            lemma_name_key(NodeType::Structure);
        }
        return Ok(NodeType::Structure);
    }
    if str_equal(s, "Multimedia") {
        proof {
            lemma_name_key(NodeType::Multimedia);
        }
        return Ok(NodeType::Multimedia);
    }
    if str_equal(s, "JavaScript") {
        proof {
            lemma_name_key(NodeType::JavaScript);
        }
        return Ok(NodeType::JavaScript);
    }
    if str_equal(s, "Encryption") {
        proof {
            lemma_name_key(NodeType::Encryption);
        }
        return Ok(NodeType::Encryption);
    }
    if str_equal(s, "Content") {
        proof {
            lemma_name_key(NodeType::Content);
        }
        return Ok(NodeType::Content);
    }
    if str_equal(s, "Other") {
        proof {
            lemma_name_key(NodeType::Other);
        }
        return Ok(NodeType::Other);
    }
    Err(concat2("Unknown node type: ", s))
}

/// The name an edge type is written under.
pub open spec fn spec_edge_type_name(t: EdgeType) -> Seq<char> {
    match t {
        EdgeType::Child => "Child"@,
        EdgeType::Reference => "Reference"@,
        EdgeType::Parent => "Parent"@,
        EdgeType::Resource => "Resource"@,
        EdgeType::Annotation => "Annotation"@,
        EdgeType::Content => "Content"@,
    }
}

/// The edge type whose name has `n` characters; the names of edge types
/// all differ in length.
pub open spec fn edge_type_with_length(n: nat) -> Option<EdgeType> {
    if n == 5 {
        Some(EdgeType::Child)
    } else if n == 9 {
        Some(EdgeType::Reference)
    } else if n == 6 {
        Some(EdgeType::Parent)
    } else if n == 8 {
        Some(EdgeType::Resource)
    } else if n == 10 {
        Some(EdgeType::Annotation)
    } else if n == 7 {
        Some(EdgeType::Content)
    } else {
        None
    }
}

/// The edge type written under `s`, or why there is none.
pub open spec fn spec_edge_type_of_name(s: Seq<char>) -> Result<EdgeType, Seq<char>> {
    match edge_type_with_length(s.len()) {
        Some(t) => if spec_edge_type_name(t) == s {
            Ok(t)
        } else {
            Err("Unknown edge type: "@ + s)
        },
        None => Err("Unknown edge type: "@ + s),
    }
}

proof fn lemma_edge_name_length(t: EdgeType)
    ensures
        edge_type_with_length(spec_edge_type_name(t).len()) == Some(t),
{
    match t {
        EdgeType::Child => {
            reveal_strlit("Child");
        },
        EdgeType::Reference => {
            reveal_strlit("Reference");
        },
        EdgeType::Parent => {
            reveal_strlit("Parent");
        },
        EdgeType::Resource => {
            reveal_strlit("Resource");
        },
        EdgeType::Annotation => {
            reveal_strlit("Annotation");
        },
        EdgeType::Content => {
            reveal_strlit("Content");
        },
    }
}

/// An edge type read back from its name is the edge type written.
pub proof fn lemma_edge_type_name_round_trip(t: EdgeType)
    ensures
        spec_edge_type_of_name(spec_edge_type_name(t)) == Ok::<EdgeType, Seq<char>>(t),
{
    lemma_edge_name_length(t);
}

pub fn edge_type_name(t: EdgeType) -> (r: &'static str)
    ensures
        r@ == spec_edge_type_name(t),
{
    match t {
        EdgeType::Child => "Child",
        EdgeType::Reference => "Reference",
        EdgeType::Parent => "Parent",
        EdgeType::Resource => "Resource",
        EdgeType::Annotation => "Annotation",
        EdgeType::Content => "Content",
    }
}

/// The edge type written under `s`, or why there is none.
pub fn parse_edge_type(s: &str) -> (r: Result<EdgeType, String>)
    ensures
        match r {
            Ok(t) => spec_edge_type_of_name(s@) == Ok::<EdgeType, Seq<char>>(t),
            Err(e) => spec_edge_type_of_name(s@) == Err::<EdgeType, Seq<char>>(e@),
        },
{
    proof {
        lemma_edge_name_length(EdgeType::Child);
        lemma_edge_name_length(EdgeType::Reference);
        lemma_edge_name_length(EdgeType::Parent);
        lemma_edge_name_length(EdgeType::Resource);
        lemma_edge_name_length(EdgeType::Annotation);
        lemma_edge_name_length(EdgeType::Content);
    }
    if str_equal(s, "Child") {
        Ok(EdgeType::Child)
    } else if str_equal(s, "Reference") {
        Ok(EdgeType::Reference)
    } else if str_equal(s, "Parent") {
        Ok(EdgeType::Parent)
    } else if str_equal(s, "Resource") {
        Ok(EdgeType::Resource)
    } else if str_equal(s, "Annotation") {
        Ok(EdgeType::Annotation)
    } else if str_equal(s, "Content") {
        Ok(EdgeType::Content)
    } else {
        Err(concat2("Unknown edge type: ", s))
    }
}

} // verus!
