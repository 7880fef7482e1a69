use css_module_lexer::{Lexer, Visitor};

#[derive(Default)]
struct Snapshot {
    results: Vec<(String, String)>,
}

impl Snapshot {
    pub fn add(&mut self, key: &str, value: &str) {
        self.results.push((key.to_string(), value.to_string()))
    }

    pub fn snapshot(&self) -> String {
        self.results
            .iter()
            .map(|(k, v)| format!("{k}: {v}\n"))
            .collect::<String>()
    }
}

impl Visitor<'_> for Snapshot {
    fn function(&mut self, lexer: &mut Lexer, start: usize, end: usize) -> Option<()> {
        self.add("function", lexer.slice(start, end)?);
        Some(())
    }

    fn ident(&mut self, lexer: &mut Lexer, start: usize, end: usize) -> Option<()> {
        self.add("ident", lexer.slice(start, end)?);
        Some(())
    }

    fn url(
        &mut self,
        lexer: &mut Lexer,
        _: usize,
        _: usize,
        content_start: usize,
        content_end: usize,
    ) -> Option<()> {
        self.add("url", lexer.slice(content_start, content_end)?);
        Some(())
    }

    fn string(&mut self, lexer: &mut Lexer, start: usize, end: usize) -> Option<()> {
        self.add("string", lexer.slice(start, end)?);
        Some(())
    }

    fn is_selector(&mut self, _: &mut Lexer) -> Option<bool> {
        Some(true)
    }

    fn id(&mut self, lexer: &mut Lexer, start: usize, end: usize) -> Option<()> {
        self.add("id", lexer.slice(start, end)?);
        Some(())
    }

    fn left_parenthesis(&mut self, lexer: &mut Lexer, start: usize, end: usize) -> Option<()> {
        self.add("left_parenthesis", lexer.slice(start, end)?);
        Some(())
    }

    fn right_parenthesis(&mut self, lexer: &mut Lexer, start: usize, end: usize) -> Option<()> {
        self.add("right_parenthesis", lexer.slice(start, end)?);
        Some(())
    }

    fn comma(&mut self, lexer: &mut Lexer, start: usize, end: usize) -> Option<()> {
        self.add("comma", lexer.slice(start, end)?);
        Some(())
    }

    fn class(&mut self, lexer: &mut Lexer, start: usize, end: usize) -> Option<()> {
        self.add("class", lexer.slice(start, end)?);
        Some(())
    }

    fn pseudo_function(&mut self, lexer: &mut Lexer, start: usize, end: usize) -> Option<()> {
        self.add("pseudo_function", lexer.slice(start, end)?);
        Some(())
    }

    fn pseudo_class(&mut self, lexer: &mut Lexer, start: usize, end: usize) -> Option<()> {
        self.add("pseudo_class", lexer.slice(start, end)?);
        Some(())
    }

    fn semicolon(&mut self, lexer: &mut Lexer, start: usize, end: usize) -> Option<()> {
        self.add("semicolon", lexer.slice(start, end)?);
        Some(())
    }

    fn at_keyword(&mut self, lexer: &mut Lexer, start: usize, end: usize) -> Option<()> {
        self.add("at_keyword", lexer.slice(start, end)?);
        Some(())
    }

    fn left_curly_bracket(&mut self, lexer: &mut Lexer, start: usize, end: usize) -> Option<()> {
        self.add("left_curly", lexer.slice(start, end)?);
        Some(())
    }

    fn right_curly_bracket(&mut self, lexer: &mut Lexer, start: usize, end: usize) -> Option<()> {
        self.add("right_curly", lexer.slice(start, end)?);
        Some(())
    }
}

#[test]
fn parse_urls() {
    let mut s = Snapshot::default();
    let mut l = Lexer::from(
        "body {\n    background: url(\n        https://example\\2f4a8f.com\\\n/image.png\n    )\n}\n--element\\ name.class\\ name#_id {\n    background: url(  \"https://example.com/some url \\\"with\\\" 'spaces'.png\"   )  url('https://example.com/\\'\"quotes\"\\'.png');\n}\n",
    );
    l.lex(&mut s);
    assert!(l.cur().is_none());
    assert_eq!(
        s.snapshot(),
        "ident: body\nleft_curly: {\nident: background\nurl: https://example\\2f4a8f.com\\\n/image.png\nright_curly: }\nident: --element\\ name\nclass: .class\\ name\nid: #_id\nleft_curly: {\nident: background\nfunction: url(\nstring: \"https://example.com/some url \\\"with\\\" 'spaces'.png\"\nright_parenthesis: )\nfunction: url(\nstring: 'https://example.com/\\'\"quotes\"\\'.png'\nright_parenthesis: )\nsemicolon: ;\nright_curly: }\n"
    );
}

#[test]
fn parse_pseudo_functions() {
    let mut s = Snapshot::default();
    let mut l = Lexer::from(
        ":local(.class#id, .class:not(*:hover)) { color: red; }\n:import(something from \":somewhere\") {}\n",
    );
    l.lex(&mut s);
    assert!(l.cur().is_none());
    assert_eq!(
        s.snapshot(),
        "pseudo_function: :local(\nclass: .class\nid: #id\ncomma: ,\nclass: .class\npseudo_function: :not(\npseudo_class: :hover\nright_parenthesis: )\nright_parenthesis: )\nleft_curly: {\nident: color\nident: red\nsemicolon: ;\nright_curly: }\npseudo_function: :import(\nident: something\nident: from\nstring: \":somewhere\"\nright_parenthesis: )\nleft_curly: {\nright_curly: }\n"
    );
}

#[test]
fn parse_at_rules() {
    let mut s = Snapshot::default();
    let mut l = Lexer::from(
        "@media (max-size: 100px) {\n    @import \"external.css\";\n    body { color: red; }\n}\n",
    );
    l.lex(&mut s);
    assert!(l.cur().is_none());
    println!("{}", s.snapshot());
    assert_eq!(
        s.snapshot(),
        "at_keyword: @media\nleft_parenthesis: (\nident: max-size\nright_parenthesis: )\nleft_curly: {\nat_keyword: @import\nstring: \"external.css\"\nsemicolon: ;\nident: body\nleft_curly: {\nident: color\nident: red\nsemicolon: ;\nright_curly: }\nright_curly: }\n"
    );
}
