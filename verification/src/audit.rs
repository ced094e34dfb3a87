//! The packages that the sources of a project use, held against those that it declares.
use crate::metadata;
use crate::metadata::{package_failure, valid_package, Relation, RelationV};
use crate::order::{all_sound, compare_text, keys, text_order, Order, Ordered, Total};
use crate::path;
use crate::path::components_of;
use crate::sorted::{collected, SortedSet, TextMap};
use crate::sorting;
use crate::sorting::sorted_list;
use crate::text;
use crate::text::{decimal_text, has_suffix, joined, opt_text, texts};
use vstd::prelude::*;
use vstd::utf8::encode_utf8;

verus! {

/// How an audit is followed up.
#[derive(Clone, Copy, PartialEq, Eq, Structural, Debug)]
pub struct AuditArgs {
    pub add: bool,
    pub prune: bool,
}

/// The kinds of tokens that tell packages.
#[derive(Clone, Copy, PartialEq, Eq, Structural, Debug)]
pub enum TokenKind {
    Identifier,
    StringLiteral,
    NsGet,
    NsGetInternal,
    Equals,
    FalseKeyword,
    Trivia,
    Other,
}

/// A token of a source, with the bytes that it takes.
#[derive(Debug)]
pub struct SyntaxToken {
    pub kind: TokenKind,
    pub text: String,
    pub start: usize,
    pub end: usize,
}

/// The kinds of nodes that tell packages.
#[derive(Clone, Copy, PartialEq, Eq, Structural, Debug)]
pub enum NodeKind {
    Call,
    Namespace,
    IdentifierExpression,
    LiteralExpression,
    Argument,
    Other,
}

/// A node of the syntax tree of a source: the tokens directly under it, the first expression
/// under it and, of a call, what is called and with which arguments, by their numbers.
#[derive(Debug)]
pub struct SyntaxNode {
    pub kind: NodeKind,
    pub tokens: Vec<SyntaxToken>,
    pub expression: Option<usize>,
    pub callee: Option<usize>,
    pub arguments: Option<Vec<usize>>,
}

/// The nodes of a syntax tree, each before those under it.
#[derive(Debug)]
pub struct SyntaxTree {
    pub nodes: Vec<SyntaxNode>,
}

/// The numbers of a node are those of nodes.
pub open spec fn node_wf(node: SyntaxNode, count: nat) -> bool {
    &&& node.expression matches Some(i) ==> i < count
    &&& node.callee matches Some(i) ==> i < count
    &&& node.arguments matches Some(list) ==> forall|k: int|
        0 <= k < list@.len() ==> (#[trigger] list@[k]) < count
}

impl SyntaxTree {
    /// The numbers of all nodes are those of nodes.
    pub open spec fn wf(&self) -> bool {
        forall|i: int|
            0 <= i < self.nodes@.len() ==> node_wf(#[trigger] self.nodes@[i], self.nodes@.len())
    }
}

/// The first token that is no white space or comment, or -1.
pub open spec fn first_token(tokens: Seq<SyntaxToken>) -> int
    decreases tokens.len(),
{
    if tokens.len() == 0 {
        -1
    } else if first_token(tokens.drop_last()) >= 0 {
        first_token(tokens.drop_last())
    } else if tokens.last().kind != TokenKind::Trivia {
        tokens.len() - 1
    } else {
        -1
    }
}

/// The first token of a kind, or -1.
pub open spec fn token_of(tokens: Seq<SyntaxToken>, kind: TokenKind) -> int
    decreases tokens.len(),
{
    if tokens.len() == 0 {
        -1
    } else if token_of(tokens.drop_last(), kind) >= 0 {
        token_of(tokens.drop_last(), kind)
    } else if tokens.last().kind == kind {
        tokens.len() - 1
    } else {
        -1
    }
}

fn find_first(tokens: &Vec<SyntaxToken>) -> (r: Option<usize>)
    ensures
        match r {
            Some(i) => i < tokens@.len() && first_token(tokens@) == i,
            None => first_token(tokens@) == -1,
        },
{
    let mut found: Option<usize> = None;
    let mut i: usize = 0;
    assert(tokens@.take(0) =~= Seq::<SyntaxToken>::empty());
    while i < tokens.len()
        invariant
            i <= tokens@.len(),
            match found {
                Some(k) => k < i && first_token(tokens@.take(i as int)) == k,
                None => first_token(tokens@.take(i as int)) == -1,
            },
        decreases tokens@.len() - i,
    {
        assert(tokens@.take(i + 1).drop_last() =~= tokens@.take(i as int));
        if found.is_none() && tokens[i].kind != TokenKind::Trivia {
            found = Some(i);
        }
        i = i + 1;
    }
    assert(tokens@.take(i as int) =~= tokens@);
    found
}

fn find_token(tokens: &Vec<SyntaxToken>, kind: TokenKind) -> (r: Option<usize>)
    ensures
        match r {
            Some(i) => i < tokens@.len() && token_of(tokens@, kind) == i,
            None => token_of(tokens@, kind) == -1,
        },
{
    let mut found: Option<usize> = None;
    let mut i: usize = 0;
    assert(tokens@.take(0) =~= Seq::<SyntaxToken>::empty());
    while i < tokens.len()
        invariant
            i <= tokens@.len(),
            match found {
                Some(k) => k < i && token_of(tokens@.take(i as int), kind) == k,
                None => token_of(tokens@.take(i as int), kind) == -1,
            },
        decreases tokens@.len() - i,
    {
        assert(tokens@.take(i + 1).drop_last() =~= tokens@.take(i as int));
        if found.is_none() && tokens[i].kind == kind {
            found = Some(i);
        }
        i = i + 1;
    }
    assert(tokens@.take(i as int) =~= tokens@);
    found
}

/// A name that a source holds as it stands: the name, where its token begins, and whether it
/// is quoted.
pub struct NameV {
    pub name: Seq<char>,
    pub start: nat,
    pub quoted: bool,
}

/// A name that a source holds as it stands.
#[derive(Debug)]
pub struct StaticName {
    pub name: String,
    pub start: usize,
    pub quoted: bool,
}

impl StaticName {
    /// The name, as characters.
    pub open spec fn view(&self) -> NameV {
        NameV { name: self.name@, start: self.start as nat, quoted: self.quoted }
    }
}

/// A name that may be there.
pub open spec fn opt_name(r: Option<StaticName>) -> Option<NameV> {
    match r {
        Some(name) => Some(name@),
        None => None,
    }
}

/// The text between quotes, unless it holds an escape.
pub open spec fn unquoted(s: Seq<char>) -> Option<Seq<char>> {
    if s.len() < 2 || (s[0] != '\'' && s[0] != '"') || s.last() != s[0] {
        None
    } else {
        let inner = s.subrange(1, s.len() - 1);
        if inner.contains('\\') {
            None
        } else {
            Some(inner)
        }
    }
}

fn unquote(s: &str) -> (r: Option<String>)
    ensures
        opt_text(r) == unquoted(s@),
{
    let v = text::chars_of(s);
    let n: usize = v.len();
    if n < 2 || (v[0] != '\'' && v[0] != '"') || v[n - 1] != v[0] {
        return None;
    }
    let inner = text::string_of(&v, 1, n - 1);
    if text::contains_char(inner.as_str(), '\\') {
        None
    } else {
        Some(inner)
    }
}

/// The name that an expression is: a plain identifier or a plain string.
pub open spec fn name_at(tree: SyntaxTree, i: int) -> Option<NameV> {
    let node = tree.nodes@[i];
    let k = first_token(node.tokens@);
    if k < 0 {
        None
    } else {
        let token = node.tokens@[k];
        match (node.kind, token.kind) {
            (NodeKind::IdentifierExpression, TokenKind::Identifier) => if token.text@.len() > 0
                && token.text@[0] == '`' {
                None
            } else {
                Some(NameV { name: token.text@, start: token.start as nat, quoted: false })
            },
            (NodeKind::LiteralExpression, TokenKind::StringLiteral) => match unquoted(token.text@) {
                Some(name) => Some(NameV { name, start: token.start as nat, quoted: true }),
                None => None,
            },
            _ => None,
        }
    }
}

/// The name that an expression is.
pub fn static_name(tree: &SyntaxTree, i: usize) -> (r: Option<StaticName>)
    requires
        i < tree.nodes@.len(),
    ensures
        opt_name(r) == name_at(*tree, i as int),
{
    let node = &tree.nodes[i];
    let k: usize = match find_first(&node.tokens) {
        Some(k) => k,
        None => {
            return None;
        },
    };
    let token = &node.tokens[k];
    match (node.kind, token.kind) {
        (NodeKind::IdentifierExpression, TokenKind::Identifier) => {
            let v = text::chars_of(token.text.as_str());
            if v.len() > 0 && v[0] == '`' {
                None
            } else {
                Some(StaticName { name: token.text.clone(), start: token.start, quoted: false })
            }
        },
        (NodeKind::LiteralExpression, TokenKind::StringLiteral) => match unquote(
            token.text.as_str(),
        ) {
            Some(name) => Some(StaticName { name, start: token.start, quoted: true }),
            None => None,
        },
        _ => None,
    }
}

/// The name that an argument is given under.
pub open spec fn tag_of(node: SyntaxNode) -> Option<Seq<char>> {
    let k = first_token(node.tokens@);
    if k >= 0 && token_of(node.tokens@.skip(k + 1), TokenKind::Equals) >= 0 {
        Some(node.tokens@[k].text@)
    } else {
        None
    }
}

/// The name that an argument is given under.
pub fn argument_tag(node: &SyntaxNode) -> (r: Option<String>)
    ensures
        opt_text(r) == tag_of(*node),
{
    let k: usize = match find_first(&node.tokens) {
        Some(k) => k,
        None => {
            return None;
        },
    };
    let total: usize = node.tokens.len();
    let ghost rest = node.tokens@.skip(k + 1);
    let mut i: usize = k + 1;
    let mut found = false;
    assert(rest.take(0) =~= Seq::<SyntaxToken>::empty());
    while i < total
        invariant
            k + 1 <= i <= total,
            total == node.tokens@.len(),
            rest == node.tokens@.skip(k + 1),
            -1 <= token_of(rest.take(i - k - 1), TokenKind::Equals),
            found == (token_of(rest.take(i - k - 1), TokenKind::Equals) >= 0),
        decreases node.tokens@.len() - i,
    {
        assert(rest.take(i - k).drop_last() =~= rest.take(i - k - 1));
        assert(rest.take(i - k).last() == node.tokens@[i as int]);
        if node.tokens[i].kind == TokenKind::Equals {
            found = true;
        }
        i = i + 1;
    }
    assert(rest.take(i - k - 1) =~= rest);
    if found {
        Some(node.tokens[k].text.clone())
    } else {
        None
    }
}

/// The name of the function that a call calls.
pub open spec fn called_name(tree: SyntaxTree, call: int) -> Option<Seq<char>> {
    match tree.nodes@[call].callee {
        None => None,
        Some(callee) => {
            let node = tree.nodes@[callee as int];
            let k = token_of(node.tokens@, TokenKind::Identifier);
            if node.kind == NodeKind::IdentifierExpression && k >= 0 {
                Some(node.tokens@[k].text@)
            } else {
                None
            }
        },
    }
}

/// The name of the function that a call calls.
pub fn call_identifier(tree: &SyntaxTree, call: usize) -> (r: Option<String>)
    requires
        tree.wf(),
        call < tree.nodes@.len(),
    ensures
        opt_text(r) == called_name(*tree, call as int),
{
    assert(node_wf(tree.nodes@[call as int], tree.nodes@.len()));
    match tree.nodes[call].callee {
        None => None,
        Some(callee) => {
            let node = &tree.nodes[callee];
            if node.kind != NodeKind::IdentifierExpression {
                return None;
            }
            match find_token(&node.tokens, TokenKind::Identifier) {
                Some(k) => Some(node.tokens[k].text.clone()),
                None => None,
            }
        },
    }
}

/// The package before `::` or `:::`.
pub open spec fn qualifier(tree: SyntaxTree, i: int) -> Option<NameV> {
    let node = tree.nodes@[i];
    if token_of(node.tokens@, TokenKind::NsGet) < 0 && token_of(
        node.tokens@,
        TokenKind::NsGetInternal,
    ) < 0 {
        None
    } else {
        match node.expression {
            None => None,
            Some(left) => name_at(tree, left as int),
        }
    }
}

/// The package before `::` or `:::`.
pub fn qualified_package(tree: &SyntaxTree, i: usize) -> (r: Option<StaticName>)
    requires
        tree.wf(),
        i < tree.nodes@.len(),
    ensures
        opt_name(r) == qualifier(*tree, i as int),
{
    let node = &tree.nodes[i];
    assert(node_wf(tree.nodes@[i as int], tree.nodes@.len()));
    if find_token(&node.tokens, TokenKind::NsGet).is_none() && find_token(
        &node.tokens,
        TokenKind::NsGetInternal,
    ).is_none() {
        return None;
    }
    match node.expression {
        None => None,
        Some(left) => static_name(tree, left),
    }
}

/// Some identifier among the tokens has the name.
pub open spec fn has_identifier(tokens: Seq<SyntaxToken>, name: Seq<char>) -> bool {
    exists|k: int|
        0 <= k < tokens.len() && (#[trigger] tokens[k]).kind == TokenKind::Identifier
            && tokens[k].text@ == name
}

fn find_identifier(tokens: &Vec<SyntaxToken>, name: &str) -> (r: bool)
    ensures
        r == has_identifier(tokens@, name@),
{
    let mut i: usize = 0;
    while i < tokens.len()
        invariant
            i <= tokens@.len(),
            forall|k: int|
                0 <= k < i ==> !((#[trigger] tokens@[k]).kind == TokenKind::Identifier
                    && tokens@[k].text@ == name@),
        decreases tokens@.len() - i,
    {
        if tokens[i].kind == TokenKind::Identifier && text::same(tokens[i].text.as_str(), name) {
            assert(tokens@[i as int].text@ == name@);
            return true;
        }
        i = i + 1;
    }
    false
}

/// The call is one of `library` or `base::library`.
pub open spec fn calls_library(tree: SyntaxTree, call: int) -> bool {
    called_name(tree, call) == Some("library"@) || match tree.nodes@[call].callee {
        None => false,
        Some(callee) => {
            let node = tree.nodes@[callee as int];
            node.kind == NodeKind::Namespace && (qualifier(tree, callee as int) matches Some(name)
                && name.name == "base"@) && has_identifier(node.tokens@, "library"@)
        },
    }
}

/// Whether the call is one of `library` or `base::library`.
pub fn is_library_call(tree: &SyntaxTree, call: usize) -> (r: bool)
    requires
        tree.wf(),
        call < tree.nodes@.len(),
    ensures
        r == calls_library(*tree, call as int),
{
    assert(node_wf(tree.nodes@[call as int], tree.nodes@.len()));
    match call_identifier(tree, call) {
        Some(name) => {
            if text::same(name.as_str(), "library") {
                return true;
            }
        },
        None => {},
    }
    let callee: usize = match tree.nodes[call].callee {
        Some(callee) => callee,
        None => {
            return false;
        },
    };
    if tree.nodes[callee].kind != NodeKind::Namespace {
        return false;
    }
    match qualified_package(tree, callee) {
        Some(name) => text::same(name.name.as_str(), "base") && find_identifier(
            &tree.nodes[callee].tokens,
            "library",
        ),
        None => false,
    }
}

/// The first argument with a tag, or without one, or -1.
pub open spec fn tagged_at(tree: SyntaxTree, list: Seq<usize>, tag: Option<Seq<char>>) -> int
    decreases list.len(),
{
    if list.len() == 0 {
        -1
    } else if tagged_at(tree, list.drop_last(), tag) >= 0 {
        tagged_at(tree, list.drop_last(), tag)
    } else if tag_of(tree.nodes@[list.last() as int]) == tag {
        list.last() as int
    } else {
        -1
    }
}

/// The tag that may be there.
pub open spec fn opt_tag(tag: Option<&str>) -> Option<Seq<char>> {
    match tag {
        Some(tag) => Some(tag@),
        None => None,
    }
}

fn find_tagged(tree: &SyntaxTree, list: &Vec<usize>, tag: Option<&str>) -> (r: Option<usize>)
    requires
        forall|k: int| 0 <= k < list@.len() ==> (#[trigger] list@[k]) < tree.nodes@.len(),
    ensures
        match r {
            Some(i) => i < tree.nodes@.len() && tagged_at(*tree, list@, opt_tag(tag)) == i,
            None => tagged_at(*tree, list@, opt_tag(tag)) == -1,
        },
{
    let mut found: Option<usize> = None;
    let mut i: usize = 0;
    assert(list@.take(0) =~= Seq::<usize>::empty());
    while i < list.len()
        invariant
            i <= list@.len(),
            forall|k: int| 0 <= k < list@.len() ==> (#[trigger] list@[k]) < tree.nodes@.len(),
            match found {
                Some(k) => k < tree.nodes@.len() && tagged_at(
                    *tree,
                    list@.take(i as int),
                    opt_tag(tag),
                ) == k,
                None => tagged_at(*tree, list@.take(i as int), opt_tag(tag)) == -1,
            },
        decreases list@.len() - i,
    {
        assert(list@.take(i + 1).drop_last() =~= list@.take(i as int));
        let number: usize = list[i];
        if found.is_none() {
            let matches = match (argument_tag(&tree.nodes[number]), tag) {
                (Some(own), Some(tag)) => text::same(own.as_str(), tag),
                (None, None) => true,
                _ => false,
            };
            if matches {
                found = Some(number);
            }
        }
        i = i + 1;
    }
    assert(list@.take(i as int) =~= list@);
    found
}

/// The package that a call of `library` loads, where the source tells it.
pub open spec fn loaded_package(tree: SyntaxTree, call: int) -> Option<NameV> {
    if !calls_library(tree, call) {
        None
    } else {
        match tree.nodes@[call].arguments {
            None => None,
            Some(list) => {
                let tagged = tagged_at(tree, list@, Some("package"@));
                let chosen = if tagged >= 0 {
                    tagged
                } else {
                    tagged_at(tree, list@, None)
                };
                if chosen < 0 {
                    None
                } else {
                    match tree.nodes@[chosen].expression {
                        None => None,
                        Some(value) => match name_at(tree, value as int) {
                            None => None,
                            Some(name) => {
                                let only = tagged_at(tree, list@, Some("character.only"@));
                                if name.quoted || only < 0 {
                                    Some(name)
                                } else {
                                    match tree.nodes@[only].expression {
                                        None => None,
                                        Some(flag) => if token_of(
                                            tree.nodes@[flag as int].tokens@,
                                            TokenKind::FalseKeyword,
                                        ) >= 0 {
                                            Some(name)
                                        } else {
                                            None
                                        },
                                    }
                                }
                            },
                        },
                    }
                }
            },
        }
    }
}

/// The package that a call of `library` loads, where the source tells it.
pub fn library_package(tree: &SyntaxTree, call: usize) -> (r: Option<StaticName>)
    requires
        tree.wf(),
        call < tree.nodes@.len(),
    ensures
        opt_name(r) == loaded_package(*tree, call as int),
{
    assert(node_wf(tree.nodes@[call as int], tree.nodes@.len()));
    if !is_library_call(tree, call) {
        return None;
    }
    let list = match &tree.nodes[call].arguments {
        Some(list) => list,
        None => {
            return None;
        },
    };
    let chosen: usize = match find_tagged(tree, list, Some("package")) {
        Some(chosen) => chosen,
        None => match find_tagged(tree, list, None) {
            Some(chosen) => chosen,
            None => {
                return None;
            },
        },
    };
    assert(node_wf(tree.nodes@[chosen as int], tree.nodes@.len()));
    let value: usize = match tree.nodes[chosen].expression {
        Some(value) => value,
        None => {
            return None;
        },
    };
    let name = match static_name(tree, value) {
        Some(name) => name,
        None => {
            return None;
        },
    };
    if !name.quoted {
        match find_tagged(tree, list, Some("character.only")) {
            None => {},
            Some(only) => {
                assert(node_wf(tree.nodes@[only as int], tree.nodes@.len()));
                match tree.nodes[only].expression {
                    None => {
                        return None;
                    },
                    Some(flag) => {
                        if find_token(&tree.nodes[flag].tokens, TokenKind::FalseKeyword).is_none() {
                            return None;
                        }
                    },
                }
            },
        }
    }
    Some(name)
}

/// The packages that arguments name: of those without a tag, or of all.
pub open spec fn named_arguments(tree: SyntaxTree, list: Seq<usize>, untagged: bool) -> Seq<NameV>
    decreases list.len(),
{
    if list.len() == 0 {
        Seq::empty()
    } else {
        let rest = named_arguments(tree, list.drop_last(), untagged);
        let node = tree.nodes@[list.last() as int];
        if untagged && tag_of(node) is Some {
            rest
        } else {
            match node.expression {
                None => rest,
                Some(value) => match name_at(tree, value as int) {
                    Some(name) => rest.push(name),
                    None => rest,
                },
            }
        }
    }
}

/// The packages that a directive of a namespace file imports from.
pub open spec fn imported_packages(tree: SyntaxTree, call: int) -> Seq<NameV> {
    match (called_name(tree, call), tree.nodes@[call].arguments) {
        (Some(name), Some(list)) => if name == "import"@ {
            named_arguments(tree, list@, true)
        } else if name == "importFrom"@ || name == "importClassesFrom"@ || name
            == "importMethodsFrom"@ {
            named_arguments(
                tree,
                list@.take(
                    if list@.len() > 0 {
                        1
                    } else {
                        0
                    },
                ),
                false,
            )
        } else {
            Seq::empty()
        },
        _ => Seq::empty(),
    }
}

/// The names, as characters.
pub open spec fn name_views(v: Seq<StaticName>) -> Seq<NameV> {
    v.map_values(|n: StaticName| n@)
}

fn collect_names(tree: &SyntaxTree, list: &Vec<usize>, count: usize, untagged: bool) -> (r: Vec<
    StaticName,
>)
    requires
        tree.wf(),
        count <= list@.len(),
        forall|k: int| 0 <= k < list@.len() ==> (#[trigger] list@[k]) < tree.nodes@.len(),
    ensures
        name_views(r@) == named_arguments(*tree, list@.take(count as int), untagged),
{
    let mut out: Vec<StaticName> = Vec::new();
    let mut i: usize = 0;
    assert(list@.take(0) =~= Seq::<usize>::empty());
    assert(name_views(out@) =~= Seq::<NameV>::empty());
    while i < count
        invariant
            i <= count <= list@.len(),
            tree.wf(),
            forall|k: int| 0 <= k < list@.len() ==> (#[trigger] list@[k]) < tree.nodes@.len(),
            name_views(out@) == named_arguments(*tree, list@.take(i as int), untagged),
        decreases count - i,
    {
        assert(list@.take(i + 1).drop_last() =~= list@.take(i as int));
        let number: usize = list[i];
        assert(node_wf(tree.nodes@[number as int], tree.nodes@.len()));
        let node = &tree.nodes[number];
        if !(untagged && argument_tag(node).is_some()) {
            match node.expression {
                None => {},
                Some(value) => match static_name(tree, value) {
                    None => {},
                    Some(name) => {
                        let ghost before = out@;
                        out.push(name);
                        assert(name_views(out@) =~= name_views(before).push(name@));
                    },
                },
            }
        }
        i = i + 1;
    }
    out
}

/// The packages that a directive of a namespace file imports from.
pub fn namespace_import_packages(tree: &SyntaxTree, call: usize) -> (r: Vec<StaticName>)
    requires
        tree.wf(),
        call < tree.nodes@.len(),
    ensures
        name_views(r@) == imported_packages(*tree, call as int),
{
    assert(node_wf(tree.nodes@[call as int], tree.nodes@.len()));
    let empty: Vec<StaticName> = Vec::new();
    assert(name_views(empty@) =~= Seq::<NameV>::empty());
    let name = match call_identifier(tree, call) {
        Some(name) => name,
        None => {
            return empty;
        },
    };
    let list = match &tree.nodes[call].arguments {
        Some(list) => list,
        None => {
            return empty;
        },
    };
    if text::same(name.as_str(), "import") {
        assert(list@.take(list@.len() as int) =~= list@);
        collect_names(tree, list, list.len(), true)
    } else if text::same(name.as_str(), "importFrom") || text::same(
        name.as_str(),
        "importClassesFrom",
    ) || text::same(name.as_str(), "importMethodsFrom") {
        let count: usize = if list.len() > 0 {
            1
        } else {
            0
        };
        collect_names(tree, list, count, false)
    } else {
        empty
    }
}

/// How a source tells a package.
#[derive(Clone, Copy, PartialEq, Eq, Structural, Debug)]
pub enum EvidenceKind {
    Library,
    Qualified,
    NamespaceImport,
}

/// A kind in words.
pub open spec fn evidence_text(kind: EvidenceKind) -> Seq<char> {
    match kind {
        EvidenceKind::Library => "library"@,
        EvidenceKind::Qualified => "qualified call"@,
        EvidenceKind::NamespaceImport => "NAMESPACE import"@,
    }
}

impl EvidenceKind {
    /// The kind in words.
    pub fn message(self) -> (r: &'static str)
        ensures
            r@ == evidence_text(self),
    {
        match self {
            EvidenceKind::Library => "library",
            EvidenceKind::Qualified => "qualified call",
            EvidenceKind::NamespaceImport => "NAMESPACE import",
        }
    }
}

/// What a node tells of packages.
pub open spec fn node_evidence(tree: SyntaxTree, i: int, namespace: bool) -> Seq<
    (NameV, EvidenceKind),
> {
    let node = tree.nodes@[i];
    if node.kind == NodeKind::Call {
        if namespace {
            imported_packages(tree, i).map_values(
                |n: NameV| (n, EvidenceKind::NamespaceImport),
            )
        } else {
            match loaded_package(tree, i) {
                Some(name) => seq![(name, EvidenceKind::Library)],
                None => Seq::empty(),
            }
        }
    } else if node.kind == NodeKind::Namespace {
        match qualifier(tree, i) {
            Some(name) => seq![(name, EvidenceKind::Qualified)],
            None => Seq::empty(),
        }
    } else {
        Seq::empty()
    }
}

/// What the first nodes of a tree tell of packages, in their order.
pub open spec fn tree_evidence(tree: SyntaxTree, count: int, namespace: bool) -> Seq<
    (NameV, EvidenceKind),
>
    decreases count,
{
    if count <= 0 {
        Seq::empty()
    } else {
        tree_evidence(tree, count - 1, namespace) + node_evidence(tree, count - 1, namespace)
    }
}

/// How often a byte is a line feed.
pub open spec fn line_feeds(bytes: Seq<u8>) -> nat
    decreases bytes.len(),
{
    if bytes.len() == 0 {
        0
    } else {
        line_feeds(bytes.drop_last()) + if bytes.last() == 10 {
            1nat
        } else {
            0
        }
    }
}

/// How many bytes come after the last line feed.
pub open spec fn last_line(bytes: Seq<u8>) -> nat
    decreases bytes.len(),
{
    if bytes.len() == 0 || bytes.last() == 10 {
        0
    } else {
        last_line(bytes.drop_last()) + 1
    }
}

/// The bytes of a source before a place.
pub open spec fn bytes_before(source: Seq<char>, offset: nat) -> Seq<u8> {
    let bytes = encode_utf8(source);
    if offset <= bytes.len() {
        bytes.take(offset as int)
    } else {
        bytes
    }
}

/// The lines and the columns of the source can be counted from one.
pub open spec fn is_countable(source: Seq<char>) -> bool {
    encode_utf8(source).len() < u64::MAX
}

/// The line and the column of a place in a source, both counted from one.
pub fn line_column(source: &str, offset: usize) -> (r: (u64, u64))
    requires
        is_countable(source@),
    ensures
        r.0 == line_feeds(bytes_before(source@, offset as nat)) + 1,
        r.1 == last_line(bytes_before(source@, offset as nat)) + 1,
{
    let bytes = source.as_bytes();
    let ghost all = encode_utf8(source@);
    let end: usize = if offset <= bytes.len() {
        offset
    } else {
        bytes.len()
    };
    let ghost before = bytes_before(source@, offset as nat);
    assert(before =~= all.take(end as int));
    let mut line: u64 = 1;
    let mut column: u64 = 1;
    let mut i: usize = 0;
    assert(all.take(0) =~= Seq::<u8>::empty());
    while i < end
        invariant
            i <= end <= bytes@.len(),
            bytes@ == all,
            all.len() < u64::MAX,
            line == line_feeds(all.take(i as int)) + 1,
            column == last_line(all.take(i as int)) + 1,
            line <= i + 1,
            column <= i + 1,
        decreases end - i,
    {
        assert(all.take(i + 1).drop_last() =~= all.take(i as int));
        if bytes[i] == 10 {
            line = line + 1;
            column = 1;
        } else {
            column = column + 1;
        }
        i = i + 1;
    }
    (line, column)
}

/// Where a source tells a package.
#[derive(Debug)]
pub struct Evidence {
    pub path: String,
    pub line: u64,
    pub column: u64,
    pub kind: EvidenceKind,
}

/// Where a source tells a package.
pub struct EvidenceV {
    pub path: Seq<char>,
    pub line: nat,
    pub column: nat,
    pub kind: EvidenceKind,
}

impl Evidence {
    /// The evidence, as characters.
    pub open spec fn view(&self) -> EvidenceV {
        EvidenceV {
            path: self.path@,
            line: self.line as nat,
            column: self.column as nat,
            kind: self.kind,
        }
    }
}

/// What keeps a source from being scanned.
#[derive(Debug)]
pub enum ScanIssue {
    Io { path: String, details: String },
    Parse { path: String, code: String, message: String, start: usize, length: usize },
    Unsupported { path: String, reason: String },
}

/// What keeps a source from being scanned.
pub enum ScanIssueV {
    Io(Seq<char>, Seq<char>),
    Parse(Seq<char>, Seq<char>, Seq<char>, nat, nat),
    Unsupported(Seq<char>, Seq<char>),
}

impl ScanIssue {
    /// The issue, as characters.
    pub open spec fn view(&self) -> ScanIssueV {
        match self {
            ScanIssue::Io { path, details } => ScanIssueV::Io(path@, details@),
            ScanIssue::Parse { path, code, message, start, length } => ScanIssueV::Parse(
                path@,
                code@,
                message@,
                *start as nat,
                *length as nat,
            ),
            ScanIssue::Unsupported { path, reason } => ScanIssueV::Unsupported(path@, reason@),
        }
    }

    /// The issue in words.
    pub fn message(&self) -> (r: String)
        ensures
            r@ == match self@ {
                ScanIssueV::Io(path, details) => "failed to inspect "@ + path + ": "@ + details,
                ScanIssueV::Parse(path, code, message, _, _) => path + ": "@ + code + ": "@
                    + message,
                ScanIssueV::Unsupported(path, reason) => "cannot scan "@ + path + ": "@ + reason,
            },
    {
        match self {
            ScanIssue::Io { path, details } => text::cat4(
                "failed to inspect ",
                path.as_str(),
                ": ",
                details.as_str(),
            ),
            ScanIssue::Parse { path, code, message, .. } => {
                let mut line = text::cat4(path.as_str(), ": ", code.as_str(), ": ");
                line.push_str(message.as_str());
                line
            },
            ScanIssue::Unsupported { path, reason } => text::cat4(
                "cannot scan ",
                path.as_str(),
                ": ",
                reason.as_str(),
            ),
        }
    }
}

/// The issues, as characters.
pub open spec fn issue_views(v: Seq<ScanIssue>) -> Seq<ScanIssueV> {
    v.map_values(|i: ScanIssue| i@)
}

/// What a parser says of a source.
#[derive(Debug)]
pub struct Diagnostic {
    pub code: String,
    pub message: String,
    pub start: usize,
    pub end: usize,
}

/// A source that was parsed.
#[derive(Debug)]
pub struct ParsedSource {
    pub diagnostics: Vec<Diagnostic>,
    pub truncated: bool,
    pub limited: bool,
    pub complete: bool,
    pub tree: SyntaxTree,
}

/// An issue for each thing that the parser says.
pub open spec fn diagnostic_issues(name: Seq<char>, v: Seq<Diagnostic>) -> Seq<ScanIssueV> {
    v.map_values(
        |d: Diagnostic|
            ScanIssueV::Parse(
                name,
                d.code@,
                d.message@,
                d.start as nat,
                if d.end >= d.start {
                    (d.end - d.start) as nat
                } else {
                    0
                },
            ),
    )
}

/// All issues of a source that was parsed: what the parser says, that it left something
/// unsaid, that it met a limit, and that it gave no complete tree without a word.
pub open spec fn parse_issues(name: Seq<char>, parsed: ParsedSource) -> Seq<ScanIssueV> {
    let a = diagnostic_issues(name, parsed.diagnostics@);
    let b = if parsed.truncated {
        a.push(
            ScanIssueV::Parse(
                name,
                "R-PARSE-TRUNCATED"@,
                "parser diagnostics were truncated"@,
                0,
                0,
            ),
        )
    } else {
        a
    };
    let c = if parsed.limited {
        b.push(
            ScanIssueV::Parse(name, "R-PARSE-LIMIT"@, "parser resource limit was reached"@, 0, 0),
        )
    } else {
        b
    };
    if !parsed.complete && parsed.diagnostics@.len() == 0 && !parsed.limited {
        c.push(
            ScanIssueV::Parse(
                name,
                "R-PARSE-STATUS"@,
                "parser did not produce a complete syntax tree"@,
                0,
                0,
            ),
        )
    } else {
        c
    }
}

fn parse_issue(name: &str, code: &str, message: &str, start: usize, length: usize) -> (r: ScanIssue)
    ensures
        r@ == ScanIssueV::Parse(name@, code@, message@, start as nat, length as nat),
{
    ScanIssue::Parse {
        path: name.to_owned(),
        code: code.to_owned(),
        message: message.to_owned(),
        start,
        length,
    }
}

/// What was found in the sources of a project.
#[derive(Debug)]
pub struct AuditScan {
    pub packages: TextMap<Evidence>,
    pub issues: Vec<ScanIssue>,
}

/// The first evidence of each package.
pub open spec fn with_evidence(
    known: Map<Seq<char>, EvidenceV>,
    name: Seq<char>,
    source: Seq<char>,
    found: Seq<(NameV, EvidenceKind)>,
) -> Map<Seq<char>, EvidenceV>
    decreases found.len(),
{
    if found.len() == 0 {
        known
    } else {
        let rest = with_evidence(known, name, source, found.drop_last());
        let (package, kind) = found.last();
        if rest.contains_key(package.name) {
            rest
        } else {
            let before = bytes_before(source, package.start);
            rest.insert(
                package.name,
                EvidenceV {
                    path: name,
                    line: line_feeds(before) + 1,
                    column: last_line(before) + 1,
                    kind,
                },
            )
        }
    }
}

/// The evidence of packages, as characters.
pub open spec fn evidence_views(m: Map<Seq<char>, Evidence>) -> Map<Seq<char>, EvidenceV> {
    m.map_values(|e: Evidence| e@)
}

impl AuditScan {
    /// Nothing was scanned yet.
    pub fn new() -> (r: AuditScan)
        ensures
            r.packages.wf(),
            r.packages@ == Map::<Seq<char>, Evidence>::empty(),
            r.issues@.len() == 0,
    {
        AuditScan { packages: TextMap::new(), issues: Vec::new() }
    }

    fn add_issue(&mut self, issue: ScanIssue)
        ensures
            final(self).packages == old(self).packages,
            issue_views(final(self).issues@) == issue_views(old(self).issues@).push(issue@),
    {
        let ghost before = self.issues@;
        self.issues.push(issue);
        assert(issue_views(self.issues@) =~= issue_views(before).push(issue@));
    }

    fn note(&mut self, name: &str, source: &str, package: &StaticName, kind: EvidenceKind)
        requires
            old(self).packages.wf(),
            is_countable(source@),
        ensures
            final(self).packages.wf(),
            final(self).issues == old(self).issues,
            evidence_views(final(self).packages@) == if old(self).packages@.contains_key(
                package.name@,
            ) {
                evidence_views(old(self).packages@)
            } else {
                evidence_views(old(self).packages@).insert(
                    package.name@,
                    (EvidenceV {
                        path: name@,
                        line: line_feeds(bytes_before(source@, package.start as nat)) + 1,
                        column: last_line(bytes_before(source@, package.start as nat)) + 1,
                        kind,
                    }),
                )
            },
    {
        if self.packages.contains_key(package.name.as_str()) {
            return;
        }
        let ghost before = self.packages@;
        let place: (u64, u64) = line_column(source, package.start);
        let evidence = Evidence { path: name.to_owned(), line: place.0, column: place.1, kind };
        self.packages.insert(package.name.clone(), evidence);
        assert(evidence_views(self.packages@) =~= evidence_views(before).insert(
            package.name@,
            evidence@,
        ));
    }

    /// Adds what one source tells.
    pub fn scan_source(
        &mut self,
        name: &str,
        source: &str,
        parsed: &ParsedSource,
        namespace: bool,
    )
        requires
            old(self).packages.wf(),
            is_countable(source@),
            parsed.tree.wf(),
        ensures
            final(self).packages.wf(),
            issue_views(final(self).issues@) == issue_views(old(self).issues@) + parse_issues(
                name@,
                *parsed,
            ),
            evidence_views(final(self).packages@) == with_evidence(
                evidence_views(old(self).packages@),
                name@,
                source@,
                tree_evidence(parsed.tree, parsed.tree.nodes@.len() as int, namespace),
            ),
    {
        let ghost start = *self;
        let ghost first = issue_views(self.issues@);
        let ghost said = diagnostic_issues(name@, parsed.diagnostics@);
        let mut i: usize = 0;
        assert(first + said.take(0) =~= first);
        while i < parsed.diagnostics.len()
            invariant
                i <= parsed.diagnostics@.len(),
                said == diagnostic_issues(name@, parsed.diagnostics@),
                self.packages == start.packages,
                issue_views(self.issues@) == first + said.take(i as int),
            decreases parsed.diagnostics@.len() - i,
        {
            let d = &parsed.diagnostics[i];
            let length: usize = if d.end >= d.start {
                d.end - d.start
            } else {
                0
            };
            let ghost before = self.issues@;
            let issue = parse_issue(
                name,
                d.code.as_str(),
                d.message.as_str(),
                d.start,
                length,
            );
            self.issues.push(issue);
            assert(said[i as int] == issue@);
            assert(issue_views(self.issues@) =~= issue_views(before).push(issue@));
            assert(issue_views(self.issues@) =~= first + said.take(i + 1));
            i = i + 1;
        }
        assert(said.take(i as int) =~= said);
        if parsed.truncated {
            self.add_issue(
                parse_issue(
                    name,
                    "R-PARSE-TRUNCATED",
                    "parser diagnostics were truncated",
                    0,
                    0,
                ),
            );
        }
        if parsed.limited {
            self.add_issue(
                parse_issue(name, "R-PARSE-LIMIT", "parser resource limit was reached", 0, 0),
            );
        }
        if !parsed.complete && parsed.diagnostics.len() == 0 && !parsed.limited {
            self.add_issue(
                parse_issue(
                    name,
                    "R-PARSE-STATUS",
                    "parser did not produce a complete syntax tree",
                    0,
                    0,
                ),
            );
        }
        assert(issue_views(self.issues@) =~= first + parse_issues(name@, *parsed));
        self.scan_tree(name, source, &parsed.tree, namespace);
    }

    fn scan_tree(&mut self, name: &str, source: &str, tree: &SyntaxTree, namespace: bool)
        requires
            old(self).packages.wf(),
            is_countable(source@),
            tree.wf(),
        ensures
            final(self).packages.wf(),
            final(self).issues == old(self).issues,
            evidence_views(final(self).packages@) == with_evidence(
                evidence_views(old(self).packages@),
                name@,
                source@,
                tree_evidence(*tree, tree.nodes@.len() as int, namespace),
            ),
    {
        let ghost start = *self;
        let ghost known = evidence_views(self.packages@);
        let mut i: usize = 0;
        while i < tree.nodes.len()
            invariant
                i <= tree.nodes@.len(),
                tree.wf(),
                is_countable(source@),
                self.packages.wf(),
                self.issues == start.issues,
                evidence_views(self.packages@) == with_evidence(
                    known,
                    name@,
                    source@,
                    tree_evidence(*tree, i as int, namespace),
                ),
            decreases tree.nodes@.len() - i,
        {
            let ghost told = tree_evidence(*tree, i as int, namespace);
            let ghost own = node_evidence(*tree, i as int, namespace);
            let kind = tree.nodes[i].kind;
            let (names, evidence): (Vec<StaticName>, EvidenceKind) = if kind == NodeKind::Call {
                if namespace {
                    (namespace_import_packages(tree, i), EvidenceKind::NamespaceImport)
                } else {
                    (one_or_none(library_package(tree, i)), EvidenceKind::Library)
                }
            } else if kind == NodeKind::Namespace {
                (one_or_none(qualified_package(tree, i)), EvidenceKind::Qualified)
            } else {
                (Vec::new(), EvidenceKind::Qualified)
            };
            assert(own =~= name_views(names@).map_values(|n: NameV| (n, evidence)));
            let mut k: usize = 0;
            assert(told + own.take(0) =~= told);
            while k < names.len()
                invariant
                    k <= names@.len(),
                    is_countable(source@),
                    self.packages.wf(),
                    self.issues == start.issues,
                    own == name_views(names@).map_values(|n: NameV| (n, evidence)),
                    evidence_views(self.packages@) == with_evidence(
                        known,
                        name@,
                        source@,
                        told + own.take(k as int),
                    ),
                decreases names@.len() - k,
            {
                assert((told + own.take(k + 1)).drop_last() =~= told + own.take(k as int));
                assert((told + own.take(k + 1)).last() == (names@[k as int]@, evidence));
                self.note(name, source, &names[k], evidence);
                k = k + 1;
            }
            assert(own.take(k as int) =~= own);
            i = i + 1;
        }
    }
}

fn one_or_none(name: Option<StaticName>) -> (r: Vec<StaticName>)
    ensures
        name_views(r@) == match name {
            Some(name) => seq![name@],
            None => Seq::empty(),
        },
{
    let mut out: Vec<StaticName> = Vec::new();
    match name {
        Some(name) => {
            out.push(name);
            assert(name_views(out@) =~= seq![name@]);
        },
        None => {
            assert(name_views(out@) =~= Seq::<NameV>::empty());
        },
    }
    out
}

/// The texts of a list that another list does not hold.
pub open spec fn without(list: Seq<Seq<char>>, other: Seq<Seq<char>>) -> Seq<Seq<char>>
    decreases list.len(),
{
    if list.len() == 0 {
        Seq::empty()
    } else {
        let rest = without(list.drop_last(), other);
        if other.contains(list.last()) {
            rest
        } else {
            rest.push(list.last())
        }
    }
}

fn leave_out(list: &Vec<String>, other: &Vec<String>) -> (r: Vec<String>)
    ensures
        texts(r@) == without(texts(list@), texts(other@)),
{
    let ghost all = texts(list@);
    let mut out: Vec<String> = Vec::new();
    let mut i: usize = 0;
    assert(all.take(0) =~= Seq::<Seq<char>>::empty());
    assert(texts(out@) =~= Seq::<Seq<char>>::empty());
    while i < list.len()
        invariant
            i <= list@.len(),
            all == texts(list@),
            texts(out@) == without(all.take(i as int), texts(other@)),
        decreases list@.len() - i,
    {
        assert(all.take(i + 1).drop_last() =~= all.take(i as int));
        assert(all[i as int] == list@[i as int]@);
        if !text::holds(other, list[i].as_str()) {
            let ghost before = out@;
            out.push(list[i].clone());
            assert(texts(out@) =~= texts(before).push(list@[i as int]@));
        }
        i = i + 1;
    }
    assert(all.take(i as int) =~= all);
    out
}

/// What is used and not declared, and what is imported and not used, each in order.
#[derive(Debug)]
pub struct AuditDiff {
    pub missing: Vec<String>,
    pub unused: Vec<String>,
}

/// The packages that a project uses: all that its sources tell but R's own base package and
/// the project itself.
pub open spec fn used_packages(told: Seq<Seq<char>>, project: Seq<char>) -> Seq<Seq<char>> {
    without(told, seq!["base"@, project])
}

/// Holds what the sources tell against what the project declares.
pub fn audit_diff(
    scan: &AuditScan,
    project: &str,
    declared: &SortedSet<String>,
    imports: &SortedSet<String>,
) -> (r: AuditDiff)
    requires
        declared.wf(),
        imports.wf(),
    ensures
        texts(r.missing@) == without(
            used_packages(texts(scan.packages.keys@), project@),
            declared@,
        ),
        texts(r.unused@) == without(
            imports@,
            used_packages(texts(scan.packages.keys@), project@),
        ),
{
    let mut own: Vec<String> = Vec::new();
    own.push("base".to_owned());
    own.push(project.to_owned());
    assert(texts(own@) =~= seq!["base"@, project@]);
    let used = leave_out(&scan.packages.keys, &own);
    assert(texts(declared.items@) =~= declared@);
    assert(texts(imports.items@) =~= imports@);
    AuditDiff {
        missing: leave_out(&used, &declared.items),
        unused: leave_out(&imports.items, &used),
    }
}

/// A line for each missing package that the sources tell.
pub open spec fn missing_lines(
    missing: Seq<Seq<char>>,
    packages: Map<Seq<char>, Evidence>,
) -> Seq<Seq<char>>
    decreases missing.len(),
{
    if missing.len() == 0 {
        Seq::empty()
    } else {
        let rest = missing_lines(missing.drop_last(), packages);
        let package = missing.last();
        if packages.contains_key(package) {
            let e = packages[package]@;
            rest.push(
                "  "@ + package + " ("@ + evidence_text(e.kind) + " at "@ + e.path + ":"@
                    + decimal_text(e.line) + ":"@ + decimal_text(e.column) + ")"@,
            )
        } else {
            rest
        }
    }
}

/// What is said of the differences.
pub open spec fn diff_lines(
    missing: Seq<Seq<char>>,
    unused: Seq<Seq<char>>,
    packages: Map<Seq<char>, Evidence>,
) -> Seq<Seq<char>> {
    let a = if missing.len() > 0 {
        seq!["Missing dependencies:"@] + missing_lines(missing, packages)
    } else {
        Seq::empty()
    };
    if unused.len() > 0 {
        a.push("Unused dependencies: "@ + joined(unused, ", "@))
    } else {
        a
    }
}

/// What is said of the differences.
pub fn report_diff(diff: &AuditDiff, scan: &AuditScan) -> (r: Vec<String>)
    requires
        scan.packages.wf(),
    ensures
        texts(r@) == diff_lines(texts(diff.missing@), texts(diff.unused@), scan.packages@),
{
    let ghost missing = texts(diff.missing@);
    let mut lines: Vec<String> = Vec::new();
    if diff.missing.len() > 0 {
        lines.push("Missing dependencies:".to_owned());
        let ghost head = texts(lines@);
        assert(head =~= seq!["Missing dependencies:"@]);
        let mut i: usize = 0;
        assert(missing.take(0) =~= Seq::<Seq<char>>::empty());
        assert(head + missing_lines(missing.take(0), scan.packages@) =~= head);
        while i < diff.missing.len()
            invariant
                i <= diff.missing@.len(),
                scan.packages.wf(),
                missing == texts(diff.missing@),
                texts(lines@) == head + missing_lines(missing.take(i as int), scan.packages@),
            decreases diff.missing@.len() - i,
        {
            let package = diff.missing[i].as_str();
            assert(missing.take(i + 1).drop_last() =~= missing.take(i as int));
            assert(missing[i as int] == package@);
            match scan.packages.get(package) {
                None => {},
                Some(e) => {
                    let ghost before = lines@;
                    let number = text::decimal(e.line);
                    let column = text::decimal(e.column);
                    let mut line = text::cat4("  ", package, " (", e.kind.message());
                    line.push_str(" at ");
                    line.push_str(e.path.as_str());
                    line.push_str(":");
                    line.push_str(number.as_str());
                    line.push_str(":");
                    line.push_str(column.as_str());
                    line.push_str(")");
                    lines.push(line);
                    assert(texts(lines@) =~= texts(before).push(line@));
                },
            }
            assert(texts(lines@) =~= head + missing_lines(missing.take(i + 1), scan.packages@));
            i = i + 1;
        }
        assert(missing.take(i as int) =~= missing);
    }
    if diff.unused.len() > 0 {
        let list = text::join(&diff.unused, ", ");
        lines.push(text::cat("Unused dependencies: ", list.as_str()));
    }
    assert(texts(lines@) =~= diff_lines(missing, texts(diff.unused@), scan.packages@));
    lines
}

/// What an audit asks before it changes anything: whether to add, and whether to prune.
pub fn audit_questions(args: AuditArgs, interactive: bool, diff: &AuditDiff, complete: bool) -> (r: (
    bool,
    bool,
))
    ensures
        r.0 == (diff.missing@.len() > 0 && !args.add && interactive),
        r.1 == (complete && diff.unused@.len() > 0 && !args.prune && interactive),
{
    (
        diff.missing.len() > 0 && !args.add && interactive,
        complete && diff.unused.len() > 0 && !args.prune && interactive,
    )
}

/// What an audit changes: whether it adds and prunes, and whether it says that pruning is
/// left out.
#[derive(Clone, Copy, PartialEq, Eq, Structural, Debug)]
pub struct AuditPlan {
    pub add: bool,
    pub prune: bool,
    pub prune_skipped: bool,
}

/// What an audit changes, by what was asked for on the command line or answered. Nothing is
/// pruned after a scan that was not complete.
pub fn plan_audit(
    args: AuditArgs,
    add_confirmed: bool,
    prune_confirmed: bool,
    diff: &AuditDiff,
    complete: bool,
) -> (r: AuditPlan)
    ensures
        r.add == (diff.missing@.len() > 0 && (args.add || add_confirmed)),
        r.prune == (complete && diff.unused@.len() > 0 && (args.prune || prune_confirmed)),
        r.prune_skipped == (args.prune && !complete && diff.unused@.len() > 0),
        !complete ==> !r.prune,
{
    AuditPlan {
        add: diff.missing.len() > 0 && (args.add || add_confirmed),
        prune: complete && diff.unused.len() > 0 && (args.prune || prune_confirmed),
        prune_skipped: args.prune && !complete && diff.unused.len() > 0,
    }
}

/// How an audit ends.
#[derive(Clone, Copy, PartialEq, Eq, Structural, Debug)]
pub enum AuditOutcome {
    IncompleteScan,
    Mismatches,
    InSync,
    Changed,
}

/// How an audit ends: a scan that was not complete is an error, and so are differences that
/// remain where nobody could be asked.
pub fn audit_outcome(plan: AuditPlan, interactive: bool, diff: &AuditDiff, complete: bool) -> (r:
    AuditOutcome)
    ensures
        r == if !complete {
            AuditOutcome::IncompleteScan
        } else if !interactive && ((diff.missing@.len() > 0 && !plan.add) || (diff.unused@.len() > 0
            && !plan.prune)) {
            AuditOutcome::Mismatches
        } else if diff.missing@.len() == 0 && diff.unused@.len() == 0 {
            AuditOutcome::InSync
        } else {
            AuditOutcome::Changed
        },
{
    if !complete {
        AuditOutcome::IncompleteScan
    } else if !interactive && ((diff.missing.len() > 0 && !plan.add) || (diff.unused.len() > 0
        && !plan.prune)) {
        AuditOutcome::Mismatches
    } else if diff.missing.len() == 0 && diff.unused.len() == 0 {
        AuditOutcome::InSync
    } else {
        AuditOutcome::Changed
    }
}

/// A package that cannot be declared, and why.
#[derive(Debug)]
pub struct InvalidPackage {
    pub package: String,
    pub reason: String,
}

/// The relations to packages in any version, or the first package that cannot be declared.
pub open spec fn open_relations(packages: Seq<Seq<char>>) -> Result<Seq<RelationV>, Seq<char>>
    decreases packages.len(),
{
    if packages.len() == 0 {
        Ok(Seq::empty())
    } else {
        match open_relations(packages.drop_last()) {
            Err(package) => Err(package),
            Ok(rest) => if valid_package(packages.last()) {
                Ok(rest.push(RelationV { package: packages.last(), requirement: None }))
            } else {
                Err(packages.last())
            },
        }
    }
}

proof fn lemma_open_stays(packages: Seq<Seq<char>>, k: int)
    requires
        0 <= k <= packages.len(),
        open_relations(packages.take(k)) is Err,
    ensures
        open_relations(packages) == open_relations(packages.take(k)),
    decreases packages.len() - k,
{
    if k < packages.len() {
        assert(packages.take(k + 1).drop_last() =~= packages.take(k));
        lemma_open_stays(packages, k + 1);
    } else {
        assert(packages.take(k) =~= packages);
    }
}

/// The relations that declare packages in any version.
pub fn added_relations(packages: &Vec<String>) -> (r: Result<SortedSet<Relation>, InvalidPackage>)
    ensures
        match r {
            Ok(relations) => relations.wf() && open_relations(texts(packages@)) is Ok
                && relations@ == collected(open_relations(texts(packages@))->Ok_0),
            Err(error) => open_relations(texts(packages@)) == Err::<Seq<RelationV>, Seq<char>>(
                error.package@,
            ) && error.reason@ == package_failure(error.package@),
        },
{
    let ghost all = texts(packages@);
    let mut set: SortedSet<Relation> = SortedSet::new();
    let mut i: usize = 0;
    assert(all.take(0) =~= Seq::<Seq<char>>::empty());
    while i < packages.len()
        invariant
            i <= packages@.len(),
            all == texts(packages@),
            set.wf(),
            open_relations(all.take(i as int)) is Ok,
            set@ == collected(open_relations(all.take(i as int))->Ok_0),
        decreases packages@.len() - i,
    {
        let package = packages[i].as_str();
        assert(all.take(i + 1).drop_last() =~= all.take(i as int));
        assert(all[i as int] == package@);
        match metadata::check_package(package) {
            Ok(_) => {},
            Err(reason) => {
                proof {
                    lemma_open_stays(all, i + 1);
                }
                return Err(InvalidPackage { package: package.to_owned(), reason });
            },
        }
        proof {
            let rest = open_relations(all.take(i as int))->Ok_0;
            let relation = RelationV { package: package@, requirement: None };
            assert(rest.push(relation).drop_last() =~= rest);
        }
        set.replace(Relation::any(package.to_owned()));
        i = i + 1;
    }
    assert(all.take(i as int) =~= all);
    Ok(set)
}

/// What is found in a directory of sources.
#[derive(Clone, Copy, PartialEq, Eq, Structural, Debug)]
pub enum EntryKind {
    Directory,
    File,
    Symlink,
    Other,
}

/// What is done with what is found in a directory of sources.
#[derive(Clone, Copy, PartialEq, Eq, Structural, Debug)]
pub enum EntryAction {
    Descend,
    Scan,
    Report,
    Ignore,
}

/// A file of R: its name ends with `.R` and is more than that.
pub open spec fn is_r_file(name: Seq<char>) -> bool {
    name.len() > 2 && has_suffix(name, ".R"@)
}

/// What is done with what is found: directories are gone into, files of R are scanned, links
/// are reported and not followed, and all else is left alone.
pub fn entry_action(kind: EntryKind, name: &str) -> (r: EntryAction)
    ensures
        r == match kind {
            EntryKind::Directory => EntryAction::Descend,
            EntryKind::File => if is_r_file(name@) {
                EntryAction::Scan
            } else {
                EntryAction::Ignore
            },
            EntryKind::Symlink => EntryAction::Report,
            EntryKind::Other => EntryAction::Ignore,
        },
{
    match kind {
        EntryKind::Directory => EntryAction::Descend,
        EntryKind::File => {
            let length: usize = text::chars_of(name).len();
            if length > 2 && text::ends_with(name, ".R") {
                EntryAction::Scan
            } else {
                EntryAction::Ignore
            }
        },
        EntryKind::Symlink => EntryAction::Report,
        EntryKind::Other => EntryAction::Ignore,
    }
}

/// The path of a source.
#[derive(Debug)]
pub struct SourcePath {
    pub path: String,
}

/// What paths are ordered by: their components, one after the other.
pub open spec fn path_key(path: Seq<char>) -> Seq<char> {
    joined(components_of(path), "\0"@)
}

impl Ordered for SourcePath {
    type Key = Seq<char>;

    open spec fn key(self) -> Seq<char> {
        path_key(self.path@)
    }

    open spec fn sound(self) -> bool {
        true
    }

    fn compare(&self, other: &Self) -> (r: Order) {
        let own = text::join(&path::components(self.path.as_str()), "\0");
        let its = text::join(&path::components(other.path.as_str()), "\0");
        assert(self.key().order(other.key()) == text_order(self.key(), other.key()));
        compare_text(own.as_str(), its.as_str())
    }
}

/// The paths of sources in the order in which they are scanned.
pub fn sort_sources(paths: Vec<SourcePath>) -> (r: Vec<SourcePath>)
    ensures
        keys(r@) == sorted_list(keys(paths@)),
        r@.to_multiset() == paths@.to_multiset(),
{
    assert(all_sound(paths@));
    sorting::sort(paths)
}

/// A path under a root, without the root.
pub open spec fn path_under(root: Seq<char>, path: Seq<char>) -> Seq<char> {
    let a = components_of(root);
    let b = components_of(path);
    if a.len() <= b.len() && b.take(a.len() as int) == a {
        joined(b.skip(a.len() as int), "/"@)
    } else {
        path
    }
}

/// How a source of a project is called: its path under the root of the project.
pub fn source_name(root: &str, path: &str) -> (r: String)
    ensures
        r@ == path_under(root@, path@),
{
    let a = path::components(root);
    let b = path::components(path);
    let ghost own = texts(a@);
    let ghost all = texts(b@);
    if a.len() > b.len() {
        return path.to_owned();
    }
    let mut head: Vec<String> = Vec::new();
    let mut rest: Vec<String> = Vec::new();
    let mut i: usize = 0;
    while i < b.len()
        invariant
            i <= b@.len(),
            a@.len() <= b@.len(),
            all == texts(b@),
            i <= a@.len() ==> head@.len() == i && rest@.len() == 0,
            i > a@.len() ==> head@.len() == a@.len() && rest@.len() == i - a@.len(),
            forall|k: int| 0 <= k < head@.len() ==> (#[trigger] head@[k])@ == all[k],
            forall|k: int| 0 <= k < rest@.len() ==> (#[trigger] rest@[k])@ == all[a@.len() + k],
        decreases b@.len() - i,
    {
        if i < a.len() {
            head.push(b[i].clone());
        } else {
            rest.push(b[i].clone());
        }
        i = i + 1;
    }
    assert(texts(head@) =~= all.take(own.len() as int));
    assert(texts(rest@) =~= all.skip(own.len() as int));
    if path::same_texts(&head, &a) {
        text::join(&rest, "/")
    } else {
        path.to_owned()
    }
}

proof fn lemma_evidence_grows(
    known: Map<Seq<char>, EvidenceV>,
    name: Seq<char>,
    source: Seq<char>,
    found: Seq<(NameV, EvidenceKind)>,
)
    ensures
        forall|package: Seq<char>| #[trigger]
            known.contains_key(package) ==> with_evidence(
                known,
                name,
                source,
                found,
            ).contains_key(package) && with_evidence(known, name, source, found)[package]
                == known[package],
    decreases found.len(),
{
    if found.len() > 0 {
        lemma_evidence_grows(known, name, source, found.drop_last());
    }
}

/// The first evidence of a package stays, whatever is scanned later.
pub proof fn first_evidence_stays(
    known: Map<Seq<char>, EvidenceV>,
    name: Seq<char>,
    source: Seq<char>,
    found: Seq<(NameV, EvidenceKind)>,
    package: Seq<char>,
)
    requires
        known.contains_key(package),
    ensures
        with_evidence(known, name, source, found).contains_key(package),
        with_evidence(known, name, source, found)[package] == known[package],
{
    lemma_evidence_grows(known, name, source, found);
}

/// No package is both missing and unused.
pub proof fn missing_packages_are_not_unused(
    used: Seq<Seq<char>>,
    declared: Seq<Seq<char>>,
    imports: Seq<Seq<char>>,
    package: Seq<char>,
)
    requires
        without(used, declared).contains(package),
    ensures
        !without(imports, used).contains(package),
{
    lemma_without(used, declared, package);
    lemma_without(imports, used, package);
}

proof fn lemma_without(list: Seq<Seq<char>>, other: Seq<Seq<char>>, item: Seq<char>)
    ensures
        without(list, other).contains(item) <==> list.contains(item) && !other.contains(item),
    decreases list.len(),
{
    let all = without(list, other);
    if list.len() > 0 {
        let t = list.drop_last();
        lemma_without(t, other, item);
        let rest = without(t, other);
        if list.contains(item) {
            let k = choose|k: int| 0 <= k < list.len() && list[k] == item;
            if k < t.len() {
                assert(t[k] == item);
            }
        }
        if t.contains(item) {
            let k = choose|k: int| 0 <= k < t.len() && t[k] == item;
            assert(list[k] == item);
        }
        if rest.contains(item) {
            let k = choose|k: int| 0 <= k < rest.len() && rest[k] == item;
            assert(all[k] == item);
        }
        if all.contains(item) {
            let k = choose|k: int| 0 <= k < all.len() && all[k] == item;
            if k < rest.len() {
                assert(rest[k] == item);
            }
        }
        if !other.contains(list.last()) {
            assert(all[all.len() - 1] == list.last());
        }
        assert(list[list.len() - 1] == list.last());
    }
}

/// A string in quotes of either kind names what stands between them, unless that holds an
/// escape; and only such a string names anything.
pub proof fn quoted_names_are_read(quote: char, name: Seq<char>, literal: Seq<char>)
    ensures
        (quote == '\'' || quote == '"') && !name.contains('\\') ==> unquoted(
            seq![quote] + name + seq![quote],
        ) == Some(name),
        unquoted(literal) == Some(name) ==> !name.contains('\\') && (literal == seq!['\''] + name
            + seq!['\''] || literal == seq!['"'] + name + seq!['"']),
{
    let s = seq![quote] + name + seq![quote];
    assert(s[0] == quote && s.last() == quote);
    assert(s.subrange(1, s.len() - 1) =~= name);
    if unquoted(literal) == Some(name) {
        assert(literal =~= seq![literal[0]] + literal.subrange(1, literal.len() - 1)
            + seq![literal[0]]);
    }
}

/// The token is the first of its list that is no white space or comment.
pub open spec fn comes_first(tokens: Seq<SyntaxToken>, k: int) -> bool {
    &&& 0 <= k < tokens.len()
    &&& tokens[k].kind != TokenKind::Trivia
    &&& forall|j: int| 0 <= j < k ==> (#[trigger] tokens[j]).kind == TokenKind::Trivia
}

/// The token is the first of a kind.
pub open spec fn comes_first_of(tokens: Seq<SyntaxToken>, kind: TokenKind, k: int) -> bool {
    &&& 0 <= k < tokens.len()
    &&& tokens[k].kind == kind
    &&& forall|j: int| 0 <= j < k ==> (#[trigger] tokens[j]).kind != kind
}

/// No token is of a kind.
pub open spec fn has_none_of(tokens: Seq<SyntaxToken>, kind: TokenKind) -> bool {
    forall|j: int| 0 <= j < tokens.len() ==> (#[trigger] tokens[j]).kind != kind
}

proof fn lemma_first_token(tokens: Seq<SyntaxToken>, k: int)
    ensures
        comes_first(tokens, k) ==> first_token(tokens) == k,
        first_token(tokens) < tokens.len(),
        first_token(tokens) >= 0 ==> comes_first(tokens, first_token(tokens)),
        first_token(tokens) < 0 ==> forall|j: int|
            0 <= j < tokens.len() ==> (#[trigger] tokens[j]).kind == TokenKind::Trivia,
    decreases tokens.len(),
{
    if tokens.len() > 0 {
        let t = tokens.drop_last();
        lemma_first_token(t, k);
        assert forall|j: int| 0 <= j < t.len() implies t[j] == #[trigger] tokens[j] by {}
        if comes_first(tokens, k) {
            if k < t.len() {
                assert(t[k] == tokens[k]);
                assert(comes_first(t, k));
            } else if first_token(t) >= 0 {
                assert(tokens[first_token(t)] == t[first_token(t)]);
            }
        }
        if first_token(t) >= 0 {
            assert(tokens[first_token(t)] == t[first_token(t)]);
        }
    }
}

proof fn lemma_token_of(tokens: Seq<SyntaxToken>, kind: TokenKind, k: int)
    ensures
        comes_first_of(tokens, kind, k) ==> token_of(tokens, kind) == k,
        -1 <= token_of(tokens, kind) < tokens.len(),
        token_of(tokens, kind) >= 0 ==> comes_first_of(tokens, kind, token_of(tokens, kind)),
        token_of(tokens, kind) < 0 <==> has_none_of(tokens, kind),
    decreases tokens.len(),
{
    if tokens.len() > 0 {
        let t = tokens.drop_last();
        lemma_token_of(t, kind, k);
        assert forall|j: int| 0 <= j < t.len() implies t[j] == #[trigger] tokens[j] by {}
        if comes_first_of(tokens, kind, k) {
            if k < t.len() {
                assert(t[k] == tokens[k]);
                assert(comes_first_of(t, kind, k));
            } else if token_of(t, kind) >= 0 {
                assert(tokens[token_of(t, kind)] == t[token_of(t, kind)]);
            }
        }
        if token_of(t, kind) >= 0 {
            assert(tokens[token_of(t, kind)] == t[token_of(t, kind)]);
        }
        if has_none_of(tokens, kind) {
            assert(has_none_of(t, kind));
            assert(tokens[tokens.len() - 1].kind != kind);
        }
        if has_none_of(t, kind) && tokens.last().kind != kind {
            assert(has_none_of(tokens, kind));
        }
    }
}

/// The expression is a plain string that names a package, or an identifier that does, at the
/// token that it begins with.
pub open spec fn names_package(
    tree: SyntaxTree,
    value: int,
    k: int,
    name: Seq<char>,
    quoted: bool,
) -> bool {
    let node = tree.nodes@[value];
    &&& 0 <= value < tree.nodes@.len()
    &&& comes_first(node.tokens@, k)
    &&& if quoted {
        &&& node.kind == NodeKind::LiteralExpression
        &&& node.tokens@[k].kind == TokenKind::StringLiteral
        &&& !name.contains('\\')
        &&& (node.tokens@[k].text@ == seq!['\''] + name + seq!['\''] || node.tokens@[k].text@
            == seq!['"'] + name + seq!['"'])
    } else {
        &&& node.kind == NodeKind::IdentifierExpression
        &&& node.tokens@[k].kind == TokenKind::Identifier
        &&& node.tokens@[k].text@ == name
        &&& name.len() > 0
        &&& name[0] != '`'
    }
}

/// An expression that names a package is read as that name.
pub proof fn named_packages_are_read(
    tree: SyntaxTree,
    value: int,
    k: int,
    name: Seq<char>,
    quoted: bool,
)
    requires
        names_package(tree, value, k, name, quoted),
    ensures
        name_at(tree, value) == Some(
            NameV { name, start: tree.nodes@[value].tokens@[k].start as nat, quoted },
        ),
{
    lemma_first_token(tree.nodes@[value].tokens@, k);
    quoted_names_are_read('\'', name, name);
    quoted_names_are_read('"', name, name);
}

/// The argument is given under no name.
pub open spec fn is_untagged(tree: SyntaxTree, argument: int) -> bool {
    has_none_of(tree.nodes@[argument].tokens@, TokenKind::Equals)
}

/// The argument is given under a name: its first token is the name, and an equals sign follows.
pub open spec fn is_tagged(tree: SyntaxTree, argument: int, tag: Seq<char>) -> bool {
    let tokens = tree.nodes@[argument].tokens@;
    exists|k: int, m: int|
        #![trigger tokens[k], tokens[m]]
        comes_first(tokens, k) && tokens[k].text@ == tag && k < m < tokens.len() && tokens[m].kind
            == TokenKind::Equals
}

proof fn lemma_tags(tree: SyntaxTree, argument: int, tag: Seq<char>)
    ensures
        is_untagged(tree, argument) ==> tag_of(tree.nodes@[argument]) is None,
        is_tagged(tree, argument, tag) ==> tag_of(tree.nodes@[argument]) == Some(tag),
{
    let tokens = tree.nodes@[argument].tokens@;
    let first = first_token(tokens);
    lemma_first_token(tokens, 0);
    if first >= 0 {
        let rest = tokens.skip(first + 1);
        lemma_token_of(rest, TokenKind::Equals, 0);
        if is_untagged(tree, argument) {
            assert forall|j: int| 0 <= j < rest.len() implies (#[trigger] rest[j]).kind
                != TokenKind::Equals by {
                assert(rest[j] == tokens[first + 1 + j]);
            }
        }
        if is_tagged(tree, argument, tag) {
            let (k, m) = choose|k: int, m: int|
                #![trigger tokens[k], tokens[m]]
                comes_first(tokens, k) && tokens[k].text@ == tag && k < m < tokens.len()
                    && tokens[m].kind == TokenKind::Equals;
            lemma_first_token(tokens, k);
            assert(rest[m - first - 1] == tokens[m]);
        }
    } else if is_tagged(tree, argument, tag) {
        let (k, m) = choose|k: int, m: int|
            #![trigger tokens[k], tokens[m]]
            comes_first(tokens, k) && tokens[k].text@ == tag && k < m < tokens.len()
                && tokens[m].kind == TokenKind::Equals;
        lemma_first_token(tokens, k);
    }
}

proof fn lemma_tagged_at(tree: SyntaxTree, list: Seq<usize>, tag: Option<Seq<char>>, i: int)
    ensures
        0 <= i < list.len() && tag_of(tree.nodes@[list[i] as int]) == tag && (forall|j: int|
            0 <= j < i ==> tag_of(tree.nodes@[#[trigger] list[j] as int]) != tag) ==> tagged_at(
            tree,
            list,
            tag,
        ) == list[i],
        (forall|j: int|
            0 <= j < list.len() ==> tag_of(tree.nodes@[#[trigger] list[j] as int]) != tag)
            <==> tagged_at(tree, list, tag) < 0,
    decreases list.len(),
{
    if list.len() > 0 {
        let t = list.drop_last();
        lemma_tagged_at(tree, t, tag, i);
        assert forall|j: int| 0 <= j < t.len() implies t[j] == #[trigger] list[j] by {}
        if forall|j: int|
            0 <= j < list.len() ==> tag_of(tree.nodes@[#[trigger] list[j] as int]) != tag {
            assert forall|j: int| 0 <= j < t.len() implies tag_of(
                tree.nodes@[#[trigger] t[j] as int],
            ) != tag by {
                assert(t[j] == list[j]);
            }
            assert(tag_of(tree.nodes@[list[list.len() - 1] as int]) != tag);
        }
        if tagged_at(tree, list, tag) < 0 {
            assert forall|j: int| 0 <= j < list.len() implies tag_of(
                tree.nodes@[#[trigger] list[j] as int],
            ) != tag by {
                if j < t.len() {
                    assert(t[j] == list[j]);
                }
            }
        }
        if 0 <= i < list.len() && tag_of(tree.nodes@[list[i] as int]) == tag && (forall|j: int|
            0 <= j < i ==> tag_of(tree.nodes@[#[trigger] list[j] as int]) != tag) {
            if i < t.len() {
                assert(t[i] == list[i]);
                assert forall|j: int| 0 <= j < i implies tag_of(
                    tree.nodes@[#[trigger] t[j] as int],
                ) != tag by {
                    assert(t[j] == list[j]);
                }
            } else {
                assert forall|j: int| 0 <= j < t.len() implies tag_of(
                    tree.nodes@[#[trigger] t[j] as int],
                ) != tag by {
                    assert(t[j] == list[j]);
                }
            }
        }
    }
}

/// The call is one of a function by its name.
pub open spec fn calls(tree: SyntaxTree, call: int, name: Seq<char>) -> bool {
    &&& 0 <= call < tree.nodes@.len()
    &&& tree.nodes@[call].callee matches Some(callee) && {
        let node = tree.nodes@[callee as int];
        &&& node.kind == NodeKind::IdentifierExpression
        &&& exists|k: int|
            comes_first_of(node.tokens@, TokenKind::Identifier, k) && (
            #[trigger] node.tokens@[k]).text@ == name
    }
}

proof fn lemma_calls(tree: SyntaxTree, call: int, name: Seq<char>)
    requires
        calls(tree, call, name),
    ensures
        called_name(tree, call) == Some(name),
{
    let node = tree.nodes@[tree.nodes@[call].callee->0 as int];
    let k = choose|k: int|
        comes_first_of(node.tokens@, TokenKind::Identifier, k) && (#[trigger] node.tokens@[k]).text@
            == name;
    lemma_token_of(node.tokens@, TokenKind::Identifier, k);
}

/// A call of `library` loads the package that its first argument names, whatever it is quoted
/// with, where no argument is given under a name.
pub proof fn library_calls_load_their_first_argument(
    tree: SyntaxTree,
    call: int,
    list: Vec<usize>,
    k: int,
    name: Seq<char>,
    quoted: bool,
)
    requires
        calls(tree, call, "library"@),
        tree.nodes@[call].arguments == Some(list),
        list@.len() > 0,
        forall|j: int| 0 <= j < list@.len() ==> is_untagged(tree, #[trigger] list@[j] as int),
        tree.nodes@[list@[0] as int].expression is Some,
        names_package(
            tree,
            tree.nodes@[list@[0] as int].expression->0 as int,
            k,
            name,
            quoted,
        ),
    ensures
        loaded_package(tree, call) == Some(
            NameV {
                name,
                start: tree.nodes@[tree.nodes@[list@[0] as int].expression->0 as int].tokens@[k].start as nat,
                quoted,
            },
        ),
{
    lemma_calls(tree, call, "library"@);
    let value = tree.nodes@[list@[0] as int].expression->0 as int;
    named_packages_are_read(tree, value, k, name, quoted);
    assert forall|j: int| 0 <= j < list@.len() implies tag_of(
        tree.nodes@[#[trigger] list@[j] as int],
    ) is None by {
        lemma_tags(tree, list@[j] as int, name);
    }
    lemma_tagged_at(tree, list@, Some("package"@), 0);
    lemma_tagged_at(tree, list@, Some("character.only"@), 0);
    lemma_tagged_at(tree, list@, None, 0);
}

/// An argument that is given under the name `package` is the one that is loaded, wherever it
/// stands.
pub proof fn named_arguments_of_library_win(
    tree: SyntaxTree,
    call: int,
    list: Vec<usize>,
    i: int,
    k: int,
    name: Seq<char>,
)
    requires
        calls(tree, call, "library"@),
        tree.nodes@[call].arguments == Some(list),
        0 <= i < list@.len(),
        is_tagged(tree, list@[i] as int, "package"@),
        forall|j: int| 0 <= j < i ==> is_untagged(tree, #[trigger] list@[j] as int),
        tree.nodes@[list@[i] as int].expression is Some,
        names_package(
            tree,
            tree.nodes@[list@[i] as int].expression->0 as int,
            k,
            name,
            true,
        ),
    ensures
        loaded_package(tree, call) matches Some(loaded) && loaded.name == name,
{
    lemma_calls(tree, call, "library"@);
    let value = tree.nodes@[list@[i] as int].expression->0 as int;
    named_packages_are_read(tree, value, k, name, true);
    lemma_tags(tree, list@[i] as int, "package"@);
    assert forall|j: int| 0 <= j < i implies tag_of(tree.nodes@[#[trigger] list@[j] as int])
        != Some("package"@) by {
        lemma_tags(tree, list@[j] as int, "package"@);
    }
    lemma_tagged_at(tree, list@, Some("package"@), i);
}

/// The package before two or three colons is in use.
pub proof fn qualified_packages_are_read(
    tree: SyntaxTree,
    i: int,
    k: int,
    name: Seq<char>,
    quoted: bool,
)
    requires
        0 <= i < tree.nodes@.len(),
        tree.nodes@[i].kind == NodeKind::Namespace,
        !has_none_of(tree.nodes@[i].tokens@, TokenKind::NsGet) || !has_none_of(
            tree.nodes@[i].tokens@,
            TokenKind::NsGetInternal,
        ),
        tree.nodes@[i].expression is Some,
        names_package(tree, tree.nodes@[i].expression->0 as int, k, name, quoted),
    ensures
        forall|namespace: bool|
            (#[trigger] node_evidence(tree, i, namespace)).len() == 1 && node_evidence(
                tree,
                i,
                namespace,
            )[0].0.name == name && node_evidence(tree, i, namespace)[0].1
                == EvidenceKind::Qualified,
{
    lemma_token_of(tree.nodes@[i].tokens@, TokenKind::NsGet, 0);
    lemma_token_of(tree.nodes@[i].tokens@, TokenKind::NsGetInternal, 0);
    named_packages_are_read(tree, tree.nodes@[i].expression->0 as int, k, name, quoted);
}

proof fn lemma_named_arguments(tree: SyntaxTree, list: Seq<usize>, untagged: bool, i: int)
    requires
        0 <= i < list.len(),
        untagged ==> tag_of(tree.nodes@[list[i] as int]) is None,
        tree.nodes@[list[i] as int].expression matches Some(value) && name_at(
            tree,
            value as int,
        ) is Some,
    ensures
        named_arguments(tree, list, untagged).contains(
            name_at(tree, tree.nodes@[list[i] as int].expression->0 as int)->0,
        ),
    decreases list.len(),
{
    let t = list.drop_last();
    let all = named_arguments(tree, list, untagged);
    let rest = named_arguments(tree, t, untagged);
    let name = name_at(tree, tree.nodes@[list[i] as int].expression->0 as int)->0;
    if i < t.len() {
        assert(t[i] == list[i]);
        lemma_named_arguments(tree, t, untagged, i);
        let m = choose|m: int| 0 <= m < rest.len() && rest[m] == name;
        assert(all[m] == name);
    } else {
        assert(all[all.len() - 1] == name);
    }
}

/// A directive `import` imports from each package that an argument without a name names, and
/// the directives that import single things from a package from the one that their first
/// argument names.
pub proof fn namespace_directives_import_packages(
    tree: SyntaxTree,
    call: int,
    list: Vec<usize>,
    i: int,
    k: int,
    name: Seq<char>,
    quoted: bool,
)
    requires
        0 <= call < tree.nodes@.len(),
        tree.nodes@[call].arguments == Some(list),
        0 <= i < list@.len(),
        tree.nodes@[list@[i] as int].expression is Some,
        names_package(
            tree,
            tree.nodes@[list@[i] as int].expression->0 as int,
            k,
            name,
            quoted,
        ),
        (calls(tree, call, "import"@) && is_untagged(tree, list@[i] as int)) || (i == 0 && (calls(
            tree,
            call,
            "importFrom"@,
        ) || calls(tree, call, "importClassesFrom"@) || calls(tree, call, "importMethodsFrom"@))),
    ensures
        exists|m: int|
            0 <= m < imported_packages(tree, call).len() && (#[trigger] imported_packages(
                tree,
                call,
            )[m]).name == name,
{
    let value = tree.nodes@[list@[i] as int].expression->0 as int;
    named_packages_are_read(tree, value, k, name, quoted);
    let found = name_at(tree, value)->0;
    let all = imported_packages(tree, call);
    reveal_strlit("import");
    reveal_strlit("importFrom");
    reveal_strlit("importClassesFrom");
    reveal_strlit("importMethodsFrom");
    assert("import"@.len() == 6 && "importFrom"@.len() == 10);
    if calls(tree, call, "import"@) && is_untagged(tree, list@[i] as int) {
        lemma_calls(tree, call, "import"@);
        lemma_tags(tree, list@[i] as int, name);
        lemma_named_arguments(tree, list@, true, i);
    } else {
        let one = list@.take(1);
        assert(one[0] == list@[0]);
        lemma_named_arguments(tree, one, false, 0);
        if calls(tree, call, "importFrom"@) {
            lemma_calls(tree, call, "importFrom"@);
        } else if calls(tree, call, "importClassesFrom"@) {
            lemma_calls(tree, call, "importClassesFrom"@);
        } else {
            lemma_calls(tree, call, "importMethodsFrom"@);
        }
    }
    let m = choose|m: int| 0 <= m < all.len() && all[m] == found;
    assert(all[m].name == name);
}

/// What any node of a tree tells is told by the tree.
pub proof fn trees_tell_what_their_nodes_tell(
    tree: SyntaxTree,
    count: int,
    namespace: bool,
    i: int,
    m: int,
)
    requires
        0 <= i < count,
        0 <= m < node_evidence(tree, i, namespace).len(),
    ensures
        tree_evidence(tree, count, namespace).contains(node_evidence(tree, i, namespace)[m]),
    decreases count,
{
    let all = tree_evidence(tree, count, namespace);
    let rest = tree_evidence(tree, count - 1, namespace);
    let told = node_evidence(tree, i, namespace)[m];
    if i < count - 1 {
        trees_tell_what_their_nodes_tell(tree, count - 1, namespace, i, m);
        let a = choose|a: int| 0 <= a < rest.len() && rest[a] == told;
        assert(all[a] == told);
    } else {
        assert(all[rest.len() + m] == told);
    }
}

/// The packages that are known after a source are those that were known and those that the
/// source tells; each that is new is known by what tells it first.
pub proof fn told_packages_are_known(
    known: Map<Seq<char>, EvidenceV>,
    path: Seq<char>,
    source: Seq<char>,
    found: Seq<(NameV, EvidenceKind)>,
    package: Seq<char>,
    i: int,
)
    ensures
        with_evidence(known, path, source, found).contains_key(package) <==> known.contains_key(
            package,
        ) || exists|k: int| 0 <= k < found.len() && (#[trigger] found[k]).0.name == package,
        !known.contains_key(package) && 0 <= i < found.len() && found[i].0.name == package && (
        forall|k: int| 0 <= k < i ==> (#[trigger] found[k]).0.name != package) ==> {
            let e = with_evidence(known, path, source, found)[package];
            e.path == path && e.kind == found[i].1 && e.line == line_feeds(
                bytes_before(source, found[i].0.start),
            ) + 1 && e.column == last_line(bytes_before(source, found[i].0.start)) + 1
        },
    decreases found.len(),
{
    if found.len() > 0 {
        let t = found.drop_last();
        told_packages_are_known(known, path, source, t, package, i);
        let rest = with_evidence(known, path, source, t);
        assert forall|k: int| 0 <= k < t.len() implies t[k] == #[trigger] found[k] by {}
        if exists|k: int| 0 <= k < found.len() && (#[trigger] found[k]).0.name == package {
            let k = choose|k: int| 0 <= k < found.len() && (#[trigger] found[k]).0.name == package;
            if k < t.len() {
                assert(t[k].0.name == package);
            }
        }
        if exists|k: int| 0 <= k < t.len() && (#[trigger] t[k]).0.name == package {
            let k = choose|k: int| 0 <= k < t.len() && (#[trigger] t[k]).0.name == package;
            assert(found[k].0.name == package);
        }
        assert(found[found.len() - 1] == found.last());
        if !known.contains_key(package) && 0 <= i < found.len() && found[i].0.name == package && (
        forall|k: int| 0 <= k < i ==> (#[trigger] found[k]).0.name != package) {
            if i < t.len() {
                assert(t[i] == found[i]);
                assert forall|k: int| 0 <= k < i implies (#[trigger] t[k]).0.name != package by {
                    assert(t[k] == found[k]);
                }
                assert(rest.contains_key(package));
            } else {
                assert forall|k: int| 0 <= k < t.len() implies (#[trigger] t[k]).0.name
                    != package by {
                    assert(t[k] == found[k]);
                }
                assert(!rest.contains_key(package));
            }
        }
    }
}

/// Lines and columns are counted by line feeds: a line feed begins a new line, every other byte
/// is one column.
pub proof fn lines_and_columns_are_counted(before: Seq<u8>, line: Seq<u8>)
    requires
        forall|i: int| 0 <= i < line.len() ==> #[trigger] line[i] != 10,
    ensures
        line_feeds(line) == 0,
        last_line(line) == line.len(),
        line_feeds(before.push(10) + line) == line_feeds(before) + 1,
        last_line(before.push(10) + line) == line.len(),
    decreases line.len(),
{
    let all = before.push(10) + line;
    if line.len() > 0 {
        let t = line.drop_last();
        assert forall|i: int| 0 <= i < t.len() implies #[trigger] t[i] != 10 by {
            assert(t[i] == line[i]);
        }
        lines_and_columns_are_counted(before, t);
        assert(all.drop_last() =~= before.push(10) + t);
        assert(all.last() == line[line.len() - 1]);
        assert(line[line.len() - 1] != 10);
    } else {
        assert(all =~= before.push(10));
        assert(before.push(10).drop_last() =~= before);
    }
}

/// A package is missing exactly if the sources tell it, it is neither R's base package nor the
/// project, and the project does not declare it; it is unused exactly if the project imports it
/// and the sources do not tell it, or it is one of those two.
pub proof fn missing_and_unused_packages(
    told: Seq<Seq<char>>,
    project: Seq<char>,
    declared: Seq<Seq<char>>,
    imports: Seq<Seq<char>>,
    package: Seq<char>,
)
    ensures
        without(used_packages(told, project), declared).contains(package) <==> told.contains(package)
            && package != "base"@ && package != project && !declared.contains(package),
        without(imports, used_packages(told, project)).contains(package) <==> imports.contains(
            package,
        ) && (!told.contains(package) || package == "base"@ || package == project),
{
    let own = seq!["base"@, project];
    assert(own.contains(package) <==> package == "base"@ || package == project) by {
        assert(own[0] == "base"@ && own[1] == project);
    }
    lemma_without(told, own, package);
    lemma_without(used_packages(told, project), declared, package);
    lemma_without(imports, used_packages(told, project), package);
}

/// The packages that are added are asked for in any version, each of them and no other; the
/// first that cannot be declared is refused.
pub proof fn added_packages_are_open(packages: Seq<Seq<char>>, i: int)
    ensures
        open_relations(packages) is Ok <==> forall|k: int|
            0 <= k < packages.len() ==> valid_package(#[trigger] packages[k]),
        open_relations(packages) matches Ok(list) ==> list.len() == packages.len() && (0 <= i
            < packages.len() ==> list[i].package == packages[i] && list[i].requirement is None),
        open_relations(packages) matches Err(package) ==> exists|k: int|
            0 <= k < packages.len() && #[trigger] packages[k] == package && !valid_package(package)
                && forall|j: int| 0 <= j < k ==> valid_package(#[trigger] packages[j]),
    decreases packages.len(),
{
    if packages.len() > 0 {
        let t = packages.drop_last();
        added_packages_are_open(t, i);
        assert forall|k: int| 0 <= k < t.len() implies t[k] == #[trigger] packages[k] by {}
        assert(packages[packages.len() - 1] == packages.last());
        match open_relations(t) {
            Err(package) => {
                let k = choose|k: int|
                    0 <= k < t.len() && #[trigger] t[k] == package && !valid_package(package)
                        && forall|j: int| 0 <= j < k ==> valid_package(#[trigger] t[j]);
                assert(packages[k] == package);
                assert forall|j: int| 0 <= j < k implies valid_package(#[trigger] packages[j]) by {
                    assert(t[j] == packages[j]);
                }
            },
            Ok(list) => {
                assert forall|j: int| 0 <= j < t.len() implies valid_package(
                    #[trigger] packages[j],
                ) by {
                    assert(t[j] == packages[j]);
                }
            },
        }
    }
}

/// Each diagnostic of a parser is an issue of the source, at its place; a source that was not
/// read to its end has an issue in any case.
pub proof fn diagnostics_are_issues(name: Seq<char>, parsed: ParsedSource, i: int)
    ensures
        0 <= i < parsed.diagnostics@.len() ==> (parse_issues(name, parsed)[i] matches
            ScanIssueV::Parse(path, code, message, start, _) && path == name && code
            == parsed.diagnostics@[i].code@ && message == parsed.diagnostics@[i].message@ && start
            == parsed.diagnostics@[i].start),
        !parsed.complete || parsed.truncated || parsed.limited ==> parse_issues(name, parsed).len()
            > 0,
        parse_issues(name, parsed).len() == 0 ==> parsed.diagnostics@.len() == 0 && parsed.complete
            && !parsed.truncated && !parsed.limited,
        parsed.diagnostics@.len() == 0 && parsed.complete && !parsed.truncated && !parsed.limited
            ==> parse_issues(name, parsed).len() == 0,
{
    let a = diagnostic_issues(name, parsed.diagnostics@);
    assert(a.len() == parsed.diagnostics@.len());
    if 0 <= i < a.len() {
        assert(parse_issues(name, parsed)[i] == a[i]);
    }
}

/// Exactly the files whose names end in `.R`, with something before it, are sources.
pub proof fn sources_end_in_r(stem: Seq<char>, name: Seq<char>)
    ensures
        stem.len() > 0 ==> is_r_file(stem + ".R"@),
        !is_r_file(".R"@),
        is_r_file(name) ==> exists|s: Seq<char>| s.len() > 0 && name == #[trigger] (s + ".R"@),
{
    reveal_strlit(".R");
    crate::text::texts_begin_and_end(stem, ".R"@);
    crate::text::texts_begin_and_end(name, ".R"@);
    if is_r_file(name) {
        let s = name.take(name.len() - 2);
        assert(name == s + ".R"@);
    }
}

/// A path below the root is told from there on; any other path is told whole.
pub proof fn paths_are_told_from_the_root(root: Seq<char>, path: Seq<char>, rest: Seq<Seq<char>>)
    ensures
        components_of(path) == components_of(root) + rest ==> path_under(root, path) == joined(
            rest,
            "/"@,
        ),
        (forall|tail: Seq<Seq<char>>|
            components_of(path) != #[trigger] (components_of(root) + tail)) ==> path_under(
            root,
            path,
        ) == path,
{
    let a = components_of(root);
    let b = components_of(path);
    if b == a + rest {
        assert(b.take(a.len() as int) =~= a);
        assert(b.skip(a.len() as int) =~= rest);
    }
    if a.len() <= b.len() && b.take(a.len() as int) == a {
        assert(b =~= a + b.skip(a.len() as int));
    }
}

/// Missing packages have a line each, in order, that tells the package and where it is used;
/// unused packages are told together.
pub proof fn differences_have_lines(
    missing: Seq<Seq<char>>,
    unused: Seq<Seq<char>>,
    packages: Map<Seq<char>, Evidence>,
    i: int,
)
    requires
        forall|k: int| 0 <= k < missing.len() ==> packages.contains_key(#[trigger] missing[k]),
    ensures
        missing_lines(missing, packages).len() == missing.len(),
        0 <= i < missing.len() ==> missing_lines(missing, packages)[i] == "  "@ + missing[i] + " ("@
            + evidence_text(packages[missing[i]]@.kind) + " at "@ + packages[missing[i]]@.path
            + ":"@ + crate::text::decimal_text(packages[missing[i]]@.line) + ":"@
            + crate::text::decimal_text(packages[missing[i]]@.column) + ")"@,
        missing.len() == 0 && unused.len() == 0 ==> diff_lines(missing, unused, packages).len()
            == 0,
        missing.len() > 0 && 0 <= i < missing.len() ==> diff_lines(missing, unused, packages)[i + 1]
            == missing_lines(missing, packages)[i],
        unused.len() > 0 ==> diff_lines(missing, unused, packages).last()
            == "Unused dependencies: "@ + joined(unused, ", "@),
    decreases missing.len(),
{
    if missing.len() > 0 {
        let t = missing.drop_last();
        let n = missing.len() - 1;
        assert(missing[n] == missing.last());
        assert forall|k: int| 0 <= k < t.len() implies packages.contains_key(#[trigger] t[k]) by {
            assert(t[k] == missing[k]);
        }
        differences_have_lines(t, unused, packages, i);
        assert(packages.contains_key(missing[n]));
        if 0 <= i < n {
            assert(t[i] == missing[i]);
            assert(missing_lines(missing, packages)[i] == missing_lines(t, packages)[i]);
        }
    }
}

/// Nothing is pruned after a scan that was not complete, and nothing is changed that was
/// neither asked for nor confirmed, or where there is nothing to change.
pub proof fn audits_change_what_was_asked_for(
    args: AuditArgs,
    add_confirmed: bool,
    prune_confirmed: bool,
    diff: &AuditDiff,
    complete: bool,
    r: AuditPlan,
)
    requires
        call_ensures(plan_audit, (args, add_confirmed, prune_confirmed, diff, complete), r),
    ensures
        !complete ==> !r.prune,
        r.add ==> (args.add || add_confirmed) && diff.missing@.len() > 0,
        r.prune ==> (args.prune || prune_confirmed) && diff.unused@.len() > 0,
        args.add && diff.missing@.len() > 0 ==> r.add,
        args.prune && complete && diff.unused@.len() > 0 ==> r.prune,
{
}

/// An audit succeeds only if the scan was complete; differences that stay where nobody could
/// be asked are an error.
pub proof fn audits_end_as_they_went(
    plan: AuditPlan,
    interactive: bool,
    diff: &AuditDiff,
    complete: bool,
    r: AuditOutcome,
)
    requires
        call_ensures(audit_outcome, (plan, interactive, diff, complete), r),
    ensures
        r == AuditOutcome::IncompleteScan <==> !complete,
        complete && diff.missing@.len() == 0 && diff.unused@.len() == 0 ==> r
            == AuditOutcome::InSync,
        complete && !interactive && diff.missing@.len() > 0 && !plan.add ==> r
            == AuditOutcome::Mismatches,
        complete && !interactive && diff.unused@.len() > 0 && !plan.prune ==> r
            == AuditOutcome::Mismatches,
        complete && interactive ==> r != AuditOutcome::Mismatches,
        r == AuditOutcome::InSync ==> diff.missing@.len() == 0 && diff.unused@.len() == 0,
{
}

/// Directories are searched, sources are read, links are told, and everything else is left
/// out.
pub proof fn entries_are_scanned_by_kind(kind: EntryKind, name: &str, r: EntryAction)
    requires
        call_ensures(entry_action, (kind, name), r),
    ensures
        r == EntryAction::Descend <==> kind == EntryKind::Directory,
        r == EntryAction::Scan <==> kind == EntryKind::File && is_r_file(name@),
        r == EntryAction::Report <==> kind == EntryKind::Symlink,
{
}

} // verus!
