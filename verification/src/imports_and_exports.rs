//! The imports and exports of a file, collected from its text, and the
//! exports that a file takes over from the files it is linked to.

use vstd::prelude::*;
use crate::grammar::{
    MODULE_IMPORT_TAG, PARSER_AUTO_EXPORTS_TRIGGER_TAG, PARSER_EXPORT_TAG,
};
use crate::matcher::{first_capture, lemma_view_children, Capture, MatchResult};
use crate::parser::{ParseError, PARSER_IDENTIFIER_TAG, PARSER_PUB_TYPE_TAG, PARSER_TYPE_TAG};
use crate::pub_type::PubType;
use crate::scanner::{located, MatcherSet};
use crate::text::{chars_of, copy_chars, same_chars};

verus! {

/// The mathematical model of an import or an export.
pub ghost struct ItemView {
    pub pub_type: Option<PubType>,
    pub struct_type: Seq<char>,
    pub identifier: Seq<char>,
}

/// Something that a file brings in: a module or an item.
pub struct Import {
    pub pub_type: Option<PubType>,
    pub struct_type: Vec<char>,
    pub identifier: Vec<char>,
}

/// Something that a file declares for others to use.
pub struct Export {
    pub pub_type: Option<PubType>,
    pub struct_type: Vec<char>,
    pub identifier: Vec<char>,
}

impl View for Import {
    type V = ItemView;

    open spec fn view(&self) -> ItemView {
        ItemView {
            pub_type: self.pub_type,
            struct_type: self.struct_type@,
            identifier: self.identifier@,
        }
    }
}

impl View for Export {
    type V = ItemView;

    open spec fn view(&self) -> ItemView {
        ItemView {
            pub_type: self.pub_type,
            struct_type: self.struct_type@,
            identifier: self.identifier@,
        }
    }
}

/// The models of a list of imports.
pub open spec fn import_views(s: Seq<Import>) -> Seq<ItemView> {
    Seq::new(s.len(), |i: int| s[i]@)
}

/// The models of a list of exports.
pub open spec fn export_views(s: Seq<Export>) -> Seq<ItemView> {
    Seq::new(s.len(), |i: int| s[i]@)
}

/// The import or export that a span describes: its kind and its identifier
/// are read from the spans of those names inside it, and its visibility
/// from the span of that name where there is one. `None` where the kind or
/// the identifier is missing.
pub open spec fn item_of(span: Capture) -> Option<ItemView> {
    match (
        first_capture(span.children, PARSER_TYPE_TAG@),
        first_capture(span.children, PARSER_IDENTIFIER_TAG@),
    ) {
        (Some(t), Some(i)) => Some(
            ItemView {
                pub_type: match first_capture(span.children, PARSER_PUB_TYPE_TAG@) {
                    Some(p) => Some(PubType::of(span.children[p].text)),
                    None => None,
                },
                struct_type: span.children[t].text,
                identifier: span.children[i].text,
            },
        ),
        _ => None,
    }
}

/// The model of what was collected from a file.
pub ghost struct ItemsView {
    pub imports: Seq<ItemView>,
    pub exports: Seq<ItemView>,
    pub trigger: Option<int>,
}

/// What the first `n` of the spans found in a file amount to: the imports
/// and the exports in document order, and the offset of the last marker
/// comment. Fails with the offset of the first import or export that
/// lacks its kind or its identifier.
pub open spec fn items_of(found: Seq<(int, Capture)>, n: nat) -> Result<ItemsView, int>
    decreases n,
{
    if n == 0 || n > found.len() {
        Ok(ItemsView { imports: Seq::empty(), exports: Seq::empty(), trigger: None })
    } else {
        match items_of(found, (n - 1) as nat) {
            Err(at) => Err(at),
            Ok(acc) => {
                let (at, span) = found[n - 1];
                if span.name == MODULE_IMPORT_TAG@ {
                    match item_of(span) {
                        Some(item) => Ok(ItemsView { imports: acc.imports.push(item), ..acc }),
                        None => Err(at),
                    }
                } else if span.name == PARSER_EXPORT_TAG@ {
                    match item_of(span) {
                        Some(item) => Ok(ItemsView { exports: acc.exports.push(item), ..acc }),
                        None => Err(at),
                    }
                } else if span.name == PARSER_AUTO_EXPORTS_TRIGGER_TAG@ {
                    Ok(ItemsView { trigger: Some(at), ..acc })
                } else {
                    Ok(acc)
                }
            },
        }
    }
}

/// What was collected from a file: its imports, its exports, and where its
/// marker comment starts.
pub struct FileItems {
    pub imports: Vec<Import>,
    pub exports: Vec<Export>,
    pub trigger: Option<usize>,
}

impl View for FileItems {
    type V = ItemsView;

    open spec fn view(&self) -> ItemsView {
        ItemsView {
            imports: import_views(self.imports@),
            exports: export_views(self.exports@),
            trigger: match self.trigger {
                Some(at) => Some(at as int),
                None => None,
            },
        }
    }
}

/// The kind, the identifier and the visibility of the import or export
/// that a span describes.
fn read_item(node: &MatchResult) -> (r: Option<(Option<PubType>, Vec<char>, Vec<char>)>)
    ensures
        match r {
            Some((pub_type, struct_type, identifier)) => item_of(node@) == Some(
                ItemView { pub_type, struct_type: struct_type@, identifier: identifier@ },
            ),
            None => item_of(node@).is_none(),
        },
{
    let kind = chars_of(PARSER_TYPE_TAG);
    let identifier = chars_of(PARSER_IDENTIFIER_TAG);
    let visibility = chars_of(PARSER_PUB_TYPE_TAG);
    proof {
        lemma_view_children(*node);
    }
    match (
        node.first_child_named(kind.as_slice()),
        node.first_child_named(identifier.as_slice()),
    ) {
        (Some(t), Some(i)) => {
            let pub_type = match node.first_child_named(visibility.as_slice()) {
                Some(p) => Some(PubType::from_chars(node.children[p].contents.as_slice())),
                None => None,
            };
            let a = &node.children[t].contents;
            let b = &node.children[i].contents;
            Some((pub_type, copy_chars(a.as_slice()), copy_chars(b.as_slice())))
        },
        _ => None,
    }
}

/// Collects the imports, the exports and the marker comment of a file from
/// the spans that `set` finds in its text. Fails at the first import or
/// export that lacks its kind or its identifier.
pub fn collect_items(set: &MatcherSet, contents: &[char]) -> (r: Result<FileItems, ParseError>)
    ensures
        match r {
            Ok(items) => items_of(
                set.scan_from(contents@, 0),
                set.scan_from(contents@, 0).len(),
            ) == Ok::<ItemsView, int>(items@),
            Err(e) => e matches ParseError::MissingCapture { at } && items_of(
                set.scan_from(contents@, 0),
                set.scan_from(contents@, 0).len(),
            ) == Err::<ItemsView, int>(at as int),
        },
{
    let found = set.find_matches(contents);
    let ghost spans = located(found@);
    let import_tag = chars_of(MODULE_IMPORT_TAG);
    let export_tag = chars_of(PARSER_EXPORT_TAG);
    let trigger_tag = chars_of(PARSER_AUTO_EXPORTS_TRIGGER_TAG);
    let mut items = FileItems { imports: Vec::new(), exports: Vec::new(), trigger: None };
    let mut i: usize = 0;
    assert(items@.imports =~= Seq::empty());
    assert(items@.exports =~= Seq::empty());
    while i < found.len()
        invariant
            i <= found@.len(),
            spans == located(found@),
            spans == set.scan_from(contents@, 0),
            import_tag@ == MODULE_IMPORT_TAG@,
            export_tag@ == PARSER_EXPORT_TAG@,
            trigger_tag@ == PARSER_AUTO_EXPORTS_TRIGGER_TAG@,
            items_of(spans, i as nat) == Ok::<ItemsView, int>(items@),
        decreases found@.len() - i,
    {
        let at = found[i].0;
        let node = &found[i].1;
        assert(spans[i as int] == (at as int, node@));
        let ghost acc = items@;
        if same_chars(node.name.as_slice(), import_tag.as_slice()) {
            match read_item(node) {
                Some((pub_type, struct_type, identifier)) => {
                    let item = Import { pub_type, struct_type, identifier };
                    items.imports.push(item);
                    assert(items@.imports =~= acc.imports.push(item@));
                    assert(items@.exports =~= acc.exports);
                },
                None => {
                    proof {
                        assert(items_of(spans, (i + 1) as nat) == Err::<ItemsView, int>(at as int));
                        lemma_items_fail(spans, (i + 1) as nat, spans.len());
                    }
                    return Err(ParseError::MissingCapture { at });
                },
            }
        } else if same_chars(node.name.as_slice(), export_tag.as_slice()) {
            match read_item(node) {
                Some((pub_type, struct_type, identifier)) => {
                    let item = Export { pub_type, struct_type, identifier };
                    items.exports.push(item);
                    assert(items@.exports =~= acc.exports.push(item@));
                    assert(items@.imports =~= acc.imports);
                },
                None => {
                    proof {
                        assert(items_of(spans, (i + 1) as nat) == Err::<ItemsView, int>(at as int));
                        lemma_items_fail(spans, (i + 1) as nat, spans.len());
                    }
                    return Err(ParseError::MissingCapture { at });
                },
            }
        } else if same_chars(node.name.as_slice(), trigger_tag.as_slice()) {
            items.trigger = Some(at);
            assert(items@.imports =~= acc.imports);
            assert(items@.exports =~= acc.exports);
        }
        i += 1;
    }
    Ok(items)
}

/// Once collecting has failed it stays failed, at the same offset.
pub proof fn lemma_items_fail(found: Seq<(int, Capture)>, n: nat, m: nat)
    requires
        n <= m <= found.len(),
        items_of(found, n).is_err(),
    ensures
        items_of(found, m) == items_of(found, n),
    decreases m,
{
    if m > n {
        lemma_items_fail(found, n, (m - 1) as nat);
    }
}

} // verus!
