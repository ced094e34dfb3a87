use rpx::audit::{
    added_relations, audit_diff, audit_outcome, audit_questions, entry_action, line_column,
    plan_audit, report_diff, sort_sources, source_name, AuditArgs, AuditOutcome, AuditScan,
    Diagnostic, EntryAction, EntryKind, EvidenceKind, NodeKind, ParsedSource, ScanIssue,
    SourcePath, SyntaxNode, SyntaxToken, SyntaxTree, TokenKind,
};
use rpx::sorted::SortedSet;

struct Builder {
    source: String,
    from: usize,
    nodes: Vec<SyntaxNode>,
}

impl Builder {
    fn new(source: &str) -> Builder {
        Builder { source: source.to_string(), from: 0, nodes: Vec::new() }
    }

    fn token(&mut self, kind: TokenKind, text: &str) -> SyntaxToken {
        let start = self.from + self.source[self.from..].find(text).expect("token is there");
        self.from = start + text.len();
        SyntaxToken { kind, text: text.to_string(), start, end: self.from }
    }

    fn push(&mut self, kind: NodeKind) -> usize {
        self.nodes.push(SyntaxNode {
            kind,
            tokens: Vec::new(),
            expression: None,
            callee: None,
            arguments: None,
        });
        self.nodes.len() - 1
    }

    fn leaf(&mut self, text: &str) -> usize {
        let (kind, token) = if text.starts_with(['\'', '"']) {
            (NodeKind::LiteralExpression, TokenKind::StringLiteral)
        } else if text == "FALSE" {
            (NodeKind::LiteralExpression, TokenKind::FalseKeyword)
        } else if text == "TRUE" {
            (NodeKind::LiteralExpression, TokenKind::Other)
        } else {
            (NodeKind::IdentifierExpression, TokenKind::Identifier)
        };
        let i = self.push(kind);
        let token = self.token(token, text);
        self.nodes[i].tokens.push(token);
        i
    }

    fn qualified(&mut self, package: &str, operator: &str, name: &str) -> usize {
        let i = self.push(NodeKind::Namespace);
        let left = self.leaf(package);
        self.nodes[i].expression = Some(left);
        let kind = if operator == "::" { TokenKind::NsGet } else { TokenKind::NsGetInternal };
        let token = self.token(kind, operator);
        self.nodes[i].tokens.push(token);
        let token = self.token(TokenKind::Identifier, name);
        self.nodes[i].tokens.push(token);
        i
    }

    fn call(
        &mut self,
        callee: impl FnOnce(&mut Builder) -> usize,
        arguments: &[(Option<&str>, &str)],
    ) {
        let i = self.push(NodeKind::Call);
        let callee = callee(self);
        self.nodes[i].callee = Some(callee);
        let mut list = Vec::new();
        for (tag, value) in arguments {
            let a = self.push(NodeKind::Argument);
            if let Some(tag) = tag {
                let token = self.token(TokenKind::Identifier, tag);
                self.nodes[a].tokens.push(token);
                let token = self.token(TokenKind::Equals, "=");
                self.nodes[a].tokens.push(token);
            }
            let value = self.leaf(value);
            self.nodes[a].expression = Some(value);
            list.push(a);
        }
        self.nodes[i].arguments = Some(list);
    }

    fn named(&mut self, name: &'static str, arguments: &[(Option<&str>, &str)]) {
        self.call(|b| b.leaf(name), arguments);
    }

    fn scan(self, namespace: bool) -> AuditScan {
        let mut scan = AuditScan::new();
        let name = if namespace { "NAMESPACE" } else { "R/code.R" };
        let parsed = ParsedSource {
            diagnostics: Vec::new(),
            truncated: false,
            limited: false,
            complete: true,
            tree: SyntaxTree { nodes: self.nodes },
        };
        scan.scan_source(name, &self.source, &parsed, namespace);
        assert!(scan.issues.is_empty());
        scan
    }
}

#[test]
fn discovers_library_and_qualified_usage() {
    let mut b = Builder::new(
        "library(dplyr)\nlibrary(package = 'tidyr')\nlibrary(pkgfalse, character.only = FALSE)\nbase::library(basequalified)\njsonlite::toJSON(x)\nrlang:::foo()\n",
    );
    b.named("library", &[(None, "dplyr")]);
    b.named("library", &[(Some("package"), "'tidyr'")]);
    b.named("library", &[(None, "pkgfalse"), (Some("character.only"), "FALSE")]);
    b.call(|b| b.qualified("base", "::", "library"), &[(None, "basequalified")]);
    b.call(|b| b.qualified("jsonlite", "::", "toJSON"), &[(None, "x")]);
    b.call(|b| b.qualified("rlang", ":::", "foo"), &[]);
    let scan = b.scan(false);
    assert_eq!(
        scan.packages.keys,
        ["base", "basequalified", "dplyr", "jsonlite", "pkgfalse", "rlang", "tidyr"]
    );
    let dplyr = scan.packages.get("dplyr").unwrap();
    assert_eq!((dplyr.line, dplyr.column), (1, 9));
    assert_eq!(dplyr.kind, EvidenceKind::Library);
    let rlang = scan.packages.get("rlang").unwrap();
    assert_eq!((rlang.line, rlang.column), (6, 1));
    assert_eq!(rlang.path, "R/code.R");
}

#[test]
fn ignores_dynamic_and_non_code_usage() {
    let mut b = Builder::new(
        "# library(commented)\nx <- 'string::value'\nlibrary(package_name, character.only = TRUE)\nlibrary(\"escaped\\x6eame\")\n",
    );
    b.leaf("'string::value'");
    b.named("library", &[(None, "package_name"), (Some("character.only"), "TRUE")]);
    b.named("library", &[(None, "\"escaped\\x6eame\"")]);
    assert!(b.scan(false).packages.keys.is_empty());
}

#[test]
fn discovers_namespace_imports() {
    let mut b = Builder::new(
        "import(dplyr, tidyr)\nimportFrom(jsonlite, toJSON)\nimportClassesFrom(methods, class)\nimportMethodsFrom(rlang, method)\nS3method(pillar::pillar_shaft, fixture)\n",
    );
    b.named("import", &[(None, "dplyr"), (None, "tidyr")]);
    b.named("importFrom", &[(None, "jsonlite"), (None, "toJSON")]);
    b.named("importClassesFrom", &[(None, "methods"), (None, "class")]);
    b.named("importMethodsFrom", &[(None, "rlang"), (None, "method")]);
    b.named("S3method", &[]);
    b.qualified("pillar", "::", "pillar_shaft");
    assert_eq!(
        b.scan(true).packages.keys,
        ["dplyr", "jsonlite", "methods", "pillar", "rlang", "tidyr"]
    );
}

fn parsed(diagnostics: Vec<Diagnostic>, complete: bool) -> ParsedSource {
    ParsedSource {
        diagnostics,
        truncated: false,
        limited: false,
        complete,
        tree: SyntaxTree { nodes: Vec::new() },
    }
}

#[test]
fn surfaces_parser_diagnostics() {
    let mut scan = AuditScan::new();
    let diagnostic = Diagnostic {
        code: "R-PARSE".to_string(),
        message: "unclosed call".to_string(),
        start: 7,
        end: 8,
    };
    scan.scan_source("R/code.R", "library(", &parsed(vec![diagnostic], false), false);
    assert_eq!(scan.issues.len(), 1);
    assert_eq!(scan.issues[0].message(), "R/code.R: R-PARSE: unclosed call");
    assert!(matches!(scan.issues[0], ScanIssue::Parse { start: 7, length: 1, .. }));

    let mut silent = AuditScan::new();
    silent.scan_source("R/code.R", "library(", &parsed(Vec::new(), false), false);
    assert_eq!(
        silent.issues[0].message(),
        "R/code.R: R-PARSE-STATUS: parser did not produce a complete syntax tree"
    );
}

#[test]
fn scans_nested_r_files_in_deterministic_order() {
    let paths = ["/p/R/z.R", "/p/R/nested/a.R", "/p/R/nested.R"]
        .into_iter()
        .map(|path| SourcePath { path: path.to_string() })
        .collect();
    let sorted = sort_sources(paths);
    assert_eq!(
        sorted.iter().map(|p| source_name("/p/", &p.path)).collect::<Vec<_>>(),
        ["R/nested/a.R", "R/nested.R", "R/z.R"]
    );
    let mut b = Builder::new("apkg::a()\n");
    b.qualified("apkg", "::", "a");
    let scan = b.scan(false);
    assert_eq!(scan.packages.keys, ["apkg"]);
}

#[test]
fn files_of_r_are_scanned_and_links_are_reported() {
    assert_eq!(entry_action(EntryKind::File, "a.R"), EntryAction::Scan);
    assert_eq!(entry_action(EntryKind::File, "a.r"), EntryAction::Ignore);
    assert_eq!(entry_action(EntryKind::File, ".R"), EntryAction::Ignore);
    assert_eq!(entry_action(EntryKind::Directory, "a.R"), EntryAction::Descend);
    assert_eq!(entry_action(EntryKind::Symlink, "a.R"), EntryAction::Report);
    assert_eq!(entry_action(EntryKind::Other, "a.R"), EntryAction::Ignore);
    assert_eq!(source_name("/q", "/p/R/a.R"), "/p/R/a.R");
}

#[test]
fn places_are_counted_in_bytes_from_one() {
    assert_eq!(line_column("ab\ncd", 0), (1, 1));
    assert_eq!(line_column("ab\ncd", 4), (2, 2));
    assert_eq!(line_column("é\né", 5), (2, 3));
    assert_eq!(line_column("ab", 99), (1, 3));
}

fn names(values: &[&str]) -> SortedSet<String> {
    let mut set = SortedSet::new();
    for value in values {
        set.insert(value.to_string());
    }
    set
}

#[test]
fn differences_are_told_and_followed_up() {
    let mut b = Builder::new("base::a()\nused::b()\nproject::c()\nextra::d()\n");
    b.qualified("base", "::", "a");
    b.qualified("used", "::", "b");
    b.qualified("project", "::", "c");
    b.qualified("extra", "::", "d");
    let scan = b.scan(false);
    let diff = audit_diff(&scan, "project", &names(&["used", "idle"]), &names(&["used", "idle"]));
    assert_eq!(diff.missing, ["extra"]);
    assert_eq!(diff.unused, ["idle"]);
    assert_eq!(
        report_diff(&diff, &scan),
        [
            "Missing dependencies:",
            "  extra (qualified call at R/code.R:4:1)",
            "Unused dependencies: idle",
        ]
    );
    let args = AuditArgs { add: true, prune: true };
    assert_eq!(audit_questions(args, true, &diff, true), (false, false));
    let plan = plan_audit(args, false, false, &diff, true);
    assert!(plan.add && plan.prune && !plan.prune_skipped);
    assert_eq!(audit_outcome(plan, false, &diff, true), AuditOutcome::Changed);
    let plan = plan_audit(args, false, false, &diff, false);
    assert!(plan.add && !plan.prune && plan.prune_skipped);
    assert_eq!(audit_outcome(plan, false, &diff, false), AuditOutcome::IncompleteScan);
    let none = AuditArgs { add: false, prune: false };
    assert_eq!(audit_questions(none, true, &diff, true), (true, true));
    let plan = plan_audit(none, false, false, &diff, true);
    assert_eq!(audit_outcome(plan, false, &diff, true), AuditOutcome::Mismatches);
    let same = audit_diff(&scan, "project", &names(&["used", "extra"]), &names(&["used"]));
    assert_eq!(audit_outcome(plan, false, &same, true), AuditOutcome::InSync);
}

#[test]
fn added_packages_have_to_be_valid() {
    let relations = added_relations(&vec!["b".to_string(), "a".to_string()]).unwrap();
    assert_eq!(relations.items.len(), 2);
    assert_eq!(relations.items[0].to_text(), "a");
    let error = added_relations(&vec!["a".to_string(), "b c".to_string()]).unwrap_err();
    assert_eq!(error.package, "b c");
    assert!(error.reason.contains("b c"));
}

#[test]
fn places_in_empty_texts_and_after_the_end_are_counted() {
    assert_eq!(line_column("", 0), (1, 1));
    assert_eq!(line_column("ab\n", 99), (2, 1));
}
