use css_parser::ast::{AtRule, BlockChild, Comment, Declaration, Root, RootChild, Rule};
use css_parser::parser::visitor::{
    walk_at_rule, walk_at_rule_mut, walk_root, walk_root_mut, walk_rule, walk_rule_mut, Visitor,
    VisitorMut,
};
use css_parser::parser::Parser;

#[test]
fn visit_counter() {
    pub struct Counter {
        pub count: usize,
    }

    impl Counter {
        pub fn new() -> Self {
            Self { count: 0 }
        }
    }

    impl Visitor for Counter {
        fn visit_root(&mut self, root: &Root) {
            walk_root(self, root);
        }

        fn visit_rule(&mut self, rule: &Rule) {
            self.count += 1;
            walk_rule(self, rule);
        }

        fn visit_at_rule(&mut self, at_rule: &AtRule) {
            self.count += 1;
            walk_at_rule(self, at_rule);
        }

        fn visit_declaration(&mut self, _: &Declaration) {
            self.count += 1;
        }

        fn visit_comment(&mut self, _: &Comment) {}
    }
    let mut p = Parser::new("foo { hello: world ; foo : bar; @foo { a:b } }");

    let mut c = Counter::new();

    c.visit_root(&p.parse().unwrap());

    assert_eq!(c.count, 5);
}

#[test]
fn visit_minify() {
    pub struct Minifier {
        pub css: String,
    }

    impl Minifier {
        pub fn new() -> Self {
            Self {
                css: "".to_string(),
            }
        }
    }

    impl Visitor for Minifier {
        fn visit_root(&mut self, root: &Root) {
            walk_root(self, root);
        }

        fn visit_rule(&mut self, rule: &Rule) {
            self.css.push_str(&format!("{}{{", rule.selector));
            walk_rule(self, rule);
            self.css.push_str("}");
        }

        fn visit_at_rule(&mut self, at_rule: &AtRule) {
            self.css
                .push_str(&format!("@{} {}{{", at_rule.name, at_rule.params));
            walk_at_rule(self, at_rule);
            self.css.push_str("}");
        }

        fn visit_declaration(&mut self, decl: &Declaration) {
            self.css.push_str(&format!("{}:{};", decl.prop, decl.value));
        }

        fn visit_comment(&mut self, _: &Comment) {}
    }
    let mut p = Parser::new("/* comment */foo { hello: world ; foo : bar; @foo { a:b } }");

    let mut m = Minifier::new();

    m.visit_root(&p.parse().unwrap());

    assert_eq!(m.css, "foo{hello:world;foo:bar;@foo {a:b;}}");
}

#[test]
fn visit_prefixer() {
    pub struct Prefixer {}

    impl Prefixer {
        pub fn new() -> Self {
            Self {}
        }
    }

    impl VisitorMut for Prefixer {
        fn visit_root(&mut self, root: &mut Root) {
            walk_root_mut(self, root);
        }

        fn visit_rule(&mut self, rule: &mut Rule) {
            rule.selector = format!("-foo-{}", rule.selector);
            walk_rule_mut(self, rule);
        }

        fn visit_at_rule(&mut self, at_rule: &mut AtRule) {
            walk_at_rule_mut(self, at_rule);
        }

        fn visit_declaration(&mut self, decl: &mut Declaration) {
            decl.prop = format!("-foo-{}", decl.prop);
        }

        fn visit_comment(&mut self, _: &mut Comment) {}
    }

    let mut p = Parser::new("foo { hello: world }");

    let mut m = Prefixer::new();

    let mut root = p.parse().unwrap();

    m.visit_root(&mut root);

    assert_eq!(
        root,
        Root {
            start: 0,
            end: 19,
            nodes: vec![RootChild::Rule(Rule {
                start: 0,
                end: 19,
                selector: "-foo-foo".to_string(),
                nodes: vec![BlockChild::Declaration(Declaration {
                    start: 6,
                    end: 17,
                    prop: "-foo-hello".to_string(),
                    value: "world".to_string(),
                    important: false
                })]
            })]
        }
    );
}

/// Writes down every hook that is called on it.
struct Recorder {
    seen: Vec<String>,
    walk: bool,
}

impl Visitor for Recorder {
    fn visit_root(&mut self, root: &Root) {
        self.seen.push("root".to_string());
        if self.walk {
            walk_root(self, root);
        }
    }

    fn visit_rule(&mut self, rule: &Rule) {
        self.seen.push(format!("rule {}", rule.selector));
        if self.walk {
            walk_rule(self, rule);
        }
    }

    fn visit_at_rule(&mut self, at_rule: &AtRule) {
        self.seen.push(format!("at {}", at_rule.name));
        if self.walk {
            walk_at_rule(self, at_rule);
        }
    }

    fn visit_declaration(&mut self, declaration: &Declaration) {
        self.seen.push(format!("decl {}", declaration.prop));
    }

    fn visit_comment(&mut self, comment: &Comment) {
        self.seen.push(format!("comment{}", comment.text));
    }
}

const NESTED: &str =
    "/* a */ b { c: d; /* e */ @f { g: h; @i { /* j */ } k: l } m: n } @o { p: q }";

#[test]
fn walk_calls_every_hook_in_source_order() {
    let root = Parser::new(NESTED).parse().unwrap();
    let mut recorder = Recorder {
        seen: vec![],
        walk: true,
    };
    recorder.visit_root(&root);
    assert_eq!(
        recorder.seen,
        vec![
            "root",
            "comment a ",
            "rule b",
            "decl c",
            "comment e ",
            "at f",
            "decl g",
            "at i",
            "comment j ",
            "decl k",
            "decl m",
            "at o",
            "decl p",
        ]
    );
}

#[test]
fn a_branch_hook_that_does_not_walk_cuts_the_walk_off() {
    let root = Parser::new(NESTED).parse().unwrap();
    let mut recorder = Recorder {
        seen: vec![],
        walk: false,
    };
    recorder.visit_root(&root);
    assert_eq!(recorder.seen, vec!["root"]);
    let mut recorder = Recorder {
        seen: vec![],
        walk: false,
    };
    walk_root(&mut recorder, &root);
    assert_eq!(recorder.seen, vec!["comment a ", "rule b", "at o"]);
}

#[test]
fn walk_visits_every_leaf_once_in_source_order() {
    struct Leaves {
        seen: Vec<(usize, usize)>,
    }

    impl Visitor for Leaves {
        fn visit_root(&mut self, root: &Root) {
            walk_root(self, root);
        }

        fn visit_rule(&mut self, rule: &Rule) {
            walk_rule(self, rule);
        }

        fn visit_at_rule(&mut self, at_rule: &AtRule) {
            walk_at_rule(self, at_rule);
        }

        fn visit_declaration(&mut self, declaration: &Declaration) {
            self.seen.push((declaration.start, declaration.end));
        }

        fn visit_comment(&mut self, comment: &Comment) {
            self.seen.push((comment.start, comment.end));
        }
    }

    let root = Parser::new(NESTED).parse().unwrap();
    let mut leaves = Leaves { seen: vec![] };
    leaves.visit_root(&root);
    assert_eq!(
        leaves.seen,
        vec![
            (0, 6),
            (12, 15),
            (18, 24),
            (31, 34),
            (42, 48),
            (52, 55),
            (59, 62),
            (71, 74),
        ]
    );
}

#[test]
fn walk_mut_rewrites_in_place_and_keeps_the_shape() {
    struct Upper {
        rules: usize,
    }

    impl VisitorMut for Upper {
        fn visit_root(&mut self, root: &mut Root) {
            walk_root_mut(self, root);
        }

        fn visit_rule(&mut self, rule: &mut Rule) {
            self.rules += 1;
            rule.selector = rule.selector.to_uppercase();
            walk_rule_mut(self, rule);
        }

        fn visit_at_rule(&mut self, at_rule: &mut AtRule) {
            at_rule.name = at_rule.name.to_uppercase();
            walk_at_rule_mut(self, at_rule);
        }

        fn visit_declaration(&mut self, declaration: &mut Declaration) {
            declaration.value = declaration.value.to_uppercase();
        }

        fn visit_comment(&mut self, comment: &mut Comment) {
            comment.text = comment.text.trim().to_string();
        }
    }

    let mut root = Parser::new("/* a */ b { c: d; @e { f: g } }").parse().unwrap();
    let mut upper = Upper { rules: 0 };
    upper.visit_root(&mut root);
    assert_eq!(upper.rules, 1);
    assert_eq!(
        root,
        Root {
            start: 0,
            end: 30,
            nodes: vec![
                RootChild::Comment(Comment {
                    text: "a".to_string(),
                    start: 0,
                    end: 6,
                }),
                RootChild::Rule(Rule {
                    selector: "B".to_string(),
                    start: 8,
                    end: 30,
                    nodes: vec![
                        BlockChild::Declaration(Declaration {
                            prop: "c".to_string(),
                            value: "D".to_string(),
                            important: false,
                            start: 12,
                            end: 15,
                        }),
                        BlockChild::AtRule(AtRule {
                            name: "E".to_string(),
                            params: "".to_string(),
                            start: 18,
                            end: 28,
                            nodes: vec![BlockChild::Declaration(Declaration {
                                prop: "f".to_string(),
                                value: "G".to_string(),
                                important: false,
                                start: 23,
                                end: 26,
                            })],
                        }),
                    ],
                }),
            ],
        }
    );
}
