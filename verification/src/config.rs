use vstd::prelude::*;
use vstd::utf8::encode_utf8_decode_utf8;

verus! {

/// One comment syntax of a language.
#[derive(Clone, Copy)]
pub enum Comment {
    /// A marker that comments out the rest of its line.
    Single(&'static str),
    /// A pair of markers that open and close a comment.
    Double(DoubleSE),
}

/// The opening and closing markers of a block comment.
#[derive(Clone, Copy)]
pub struct DoubleSE {
    pub open: &'static str,
    pub close: &'static str,
}

/// A language: its display name, the file extension that selects it, and its comment syntaxes.
#[derive(Clone, Copy)]
pub struct Config {
    pub name: &'static str,
    pub ext: &'static str,
    pub comment_literal: &'static [Comment],
}

/// A comment syntax as text.
pub enum CommentView {
    Single(Seq<char>),
    Double(Seq<char>, Seq<char>),
}

/// A language as text.
pub struct ConfigView {
    pub name: Seq<char>,
    pub ext: Seq<char>,
    pub comments: Seq<CommentView>,
}

impl View for Comment {
    type V = CommentView;

    open spec fn view(&self) -> CommentView {
        match *self {
            Comment::Single(s) => CommentView::Single(s@),
            Comment::Double(d) => CommentView::Double(d.open@, d.close@),
        }
    }
}

impl View for Config {
    type V = ConfigView;

    open spec fn view(&self) -> ConfigView {
        ConfigView {
            name: self.name@,
            ext: self.ext@,
            comments: self.comment_literal@.map_values(|c: Comment| c@),
        }
    }
}

/// A comment syntax that the scanner can run on: no block comment has both an empty
/// opening and an empty closing marker (with such a pair the scan would never advance).
pub open spec fn comment_wf(c: CommentView) -> bool {
    match c {
        CommentView::Single(_) => true,
        CommentView::Double(open, close) => open.len() > 0 || close.len() > 0,
    }
}

/// Every comment syntax of the language is one the scanner can run on.
pub open spec fn config_wf(cfg: ConfigView) -> bool {
    forall|k: int| 0 <= k < cfg.comments.len() ==> comment_wf(#[trigger] cfg.comments[k])
}


/// `//` line comments and `/* */` block comments.
pub open spec fn c_style() -> Seq<CommentView> {
    seq![CommentView::Single("//"@), CommentView::Double("/*"@, "*/"@)]
}

/// `#` line comments.
pub open spec fn hash_only() -> Seq<CommentView> {
    seq![CommentView::Single("#"@)]
}

/// `<!-- -->` block comments.
pub open spec fn markup() -> Seq<CommentView> {
    seq![CommentView::Double("<!--"@, "-->"@)]
}

pub open spec fn lang(name: Seq<char>, ext: Seq<char>, comments: Seq<CommentView>) -> ConfigView {
    ConfigView { name, ext, comments }
}

/// The languages the line counter knows, in order.
pub open spec fn language_table() -> Seq<ConfigView> {
    seq![
        lang("Rust"@, "rs"@, c_style()),
        lang("Go"@, "go"@, c_style()),
        lang("C++"@, "cpp"@, c_style()),
        lang("C"@, "c"@, c_style()),
        lang("JavaScript"@, "js"@, c_style()),
        lang("Java"@, "java"@, c_style()),
        lang("Kotlin"@, "kt"@, c_style()),
        lang("TypeScript"@, "ts"@, c_style()),
        lang("Python"@, "py"@, seq![CommentView::Single("#"@), CommentView::Double("\"\"\""@, "\"\"\""@)]),
        lang("Shell"@, "sh"@, hash_only()),
        lang("Ruby"@, "rb"@, seq![CommentView::Single("#"@), CommentView::Double("=begin"@, "=end"@)]),
        lang("Markdown"@, "md"@, markup()),
        lang("HTML"@, "html"@, markup()),
    ]
}

/// The index of the last language in `cs` with extension `ext`: the one a map filled
/// in order, each language inserted under its extension, ends up holding.
pub open spec fn last_with_ext(cs: Seq<ConfigView>, ext: Seq<char>) -> Option<int>
    decreases cs.len(),
{
    if cs.len() == 0 {
        None
    } else if cs.last().ext == ext {
        Some(cs.len() - 1)
    } else {
        last_with_ext(cs.drop_last(), ext)
    }
}

/// Looking up `ext` in `cs` finds a language named `name` with comment syntaxes `comments`.
pub open spec fn finds(cs: Seq<ConfigView>, ext: Seq<char>, name: Seq<char>, comments: Seq<CommentView>) -> bool {
    last_with_ext(cs, ext) matches Some(i) && cs[i].name == name && cs[i].comments == comments
}

/// The languages by file extension.
pub struct Registry {
    configs: Vec<Config>,
}

impl View for Registry {
    type V = Seq<ConfigView>;

    closed spec fn view(&self) -> Seq<ConfigView> {
        self.configs@.map_values(|c: Config| c@)
    }
}

impl Registry {
    /// Every language in the registry is one the scanner can run on.
    #[verifier::type_invariant]
    closed spec fn inv(self) -> bool {
        forall|k: int| 0 <= k < self.configs@.len() ==> config_wf(#[trigger] self.configs@[k]@)
    }

    /// The language whose extension is `ext`.
    pub fn get(&self, ext: &str) -> (r: Option<Config>)
        ensures
            match last_with_ext(self@, ext@) {
                Some(i) => r matches Some(c) && c@ == self@[i],
                None => r is None,
            },
            r matches Some(c) ==> config_wf(c@),
    {
        proof {
            use_type_invariant(self);
        }
        let ghost cs = self@;
        let mut k: usize = self.configs.len();
        assert(cs.take(k as int) =~= cs);
        while k > 0
            invariant
                k <= self.configs@.len(),
                cs == self@,
                forall|t: int| 0 <= t < self.configs@.len() ==> config_wf(#[trigger] self.configs@[t]@),
                last_with_ext(cs, ext@) == last_with_ext(cs.take(k as int), ext@),
            decreases k,
        {
            let c = self.configs[k - 1];
            assert(cs.take(k as int).drop_last() =~= cs.take(k - 1));
            assert(cs.take(k as int).last() == c@);
            if str_eq(c.ext, ext) {
                return Some(c);
            }
            k = k - 1;
        }
        None
    }
}

/// The two texts are equal, compared byte by byte.
pub(crate) fn str_eq(a: &str, b: &str) -> (r: bool)
    ensures
        r == (a@ == b@),
{
    let x = a.as_bytes();
    let y = b.as_bytes();
    proof {
        encode_utf8_decode_utf8(a@);
        encode_utf8_decode_utf8(b@);
    }
    assert(a@ == b@ ==> x@ == y@);
    if x.len() != y.len() {
        return false;
    }
    let mut i: usize = 0;
    while i < x.len()
        invariant
            x@.len() == y@.len(),
            a@ == b@ ==> x@ == y@,
            x@ == y@ ==> a@ == b@,
            i <= x@.len(),
            forall|t: int| 0 <= t < i ==> x@[t] == y@[t],
        decreases x@.len() - i,
    {
        if x[i] != y[i] {
            return false;
        }
        i = i + 1;
    }
    assert(x@ =~= y@);
    true
}

/// The languages the line counter knows, by file extension.
pub fn lang_by_ext() -> (r: Registry)
    ensures
        r@ == language_table(),
        finds(r@, "rs"@, "Rust"@, seq![CommentView::Single("//"@), CommentView::Double("/*"@, "*/"@)]),
        finds(r@, "go"@, "Go"@, seq![CommentView::Single("//"@), CommentView::Double("/*"@, "*/"@)]),
        finds(r@, "cpp"@, "C++"@, seq![CommentView::Single("//"@), CommentView::Double("/*"@, "*/"@)]),
        finds(r@, "c"@, "C"@, seq![CommentView::Single("//"@), CommentView::Double("/*"@, "*/"@)]),
        finds(r@, "js"@, "JavaScript"@, seq![CommentView::Single("//"@), CommentView::Double("/*"@, "*/"@)]),
        finds(r@, "java"@, "Java"@, seq![CommentView::Single("//"@), CommentView::Double("/*"@, "*/"@)]),
        finds(r@, "kt"@, "Kotlin"@, seq![CommentView::Single("//"@), CommentView::Double("/*"@, "*/"@)]),
        finds(r@, "ts"@, "TypeScript"@, seq![CommentView::Single("//"@), CommentView::Double("/*"@, "*/"@)]),
        finds(r@, "py"@, "Python"@, seq![CommentView::Single("#"@), CommentView::Double("\"\"\""@, "\"\"\""@)]),
        finds(r@, "sh"@, "Shell"@, seq![CommentView::Single("#"@)]),
        finds(r@, "rb"@, "Ruby"@, seq![CommentView::Single("#"@), CommentView::Double("=begin"@, "=end"@)]),
        finds(r@, "md"@, "Markdown"@, seq![CommentView::Double("<!--"@, "-->"@)]),
        finds(r@, "html"@, "HTML"@, seq![CommentView::Double("<!--"@, "-->"@)]),
{
    let popular: &'static [Comment] = &[Comment::Single("//"), Comment::Double(DoubleSE { open: "/*", close: "*/" })];
    let hashes: &'static [Comment] = &[Comment::Single("#")];
    let tags: &'static [Comment] = &[Comment::Double(DoubleSE { open: "<!--", close: "-->" })];
    let python: &'static [Comment] = &[
        Comment::Single("#"),
        Comment::Double(DoubleSE { open: "\"\"\"", close: "\"\"\"" }),
    ];
    let ruby: &'static [Comment] = &[Comment::Single("#"), Comment::Double(DoubleSE { open: "=begin", close: "=end" })];
    let mut configs: Vec<Config> = Vec::new();
    configs.push(Config { name: "Rust", ext: "rs", comment_literal: popular });
    configs.push(Config { name: "Go", ext: "go", comment_literal: popular });
    configs.push(Config { name: "C++", ext: "cpp", comment_literal: popular });
    configs.push(Config { name: "C", ext: "c", comment_literal: popular });
    configs.push(Config { name: "JavaScript", ext: "js", comment_literal: popular });
    configs.push(Config { name: "Java", ext: "java", comment_literal: popular });
    configs.push(Config { name: "Kotlin", ext: "kt", comment_literal: popular });
    configs.push(Config { name: "TypeScript", ext: "ts", comment_literal: popular });
    configs.push(Config { name: "Python", ext: "py", comment_literal: python });
    configs.push(Config { name: "Shell", ext: "sh", comment_literal: hashes });
    configs.push(Config { name: "Ruby", ext: "rb", comment_literal: ruby });
    configs.push(Config { name: "Markdown", ext: "md", comment_literal: tags });
    configs.push(Config { name: "HTML", ext: "html", comment_literal: tags });
    assert(popular@.map_values(|c: Comment| c@) =~= c_style());
    assert(hashes@.map_values(|c: Comment| c@) =~= hash_only());
    assert(tags@.map_values(|c: Comment| c@) =~= markup());
    assert(python@.map_values(|c: Comment| c@) =~= language_table()[8].comments);
    assert(ruby@.map_values(|c: Comment| c@) =~= language_table()[10].comments);
    assert(configs@.len() == 13);
    assert(configs@.map_values(|c: Config| c@) =~= language_table());
    proof {
        lemma_language_table_wf();
        assert forall|k: int| 0 <= k < configs@.len() implies config_wf(#[trigger] configs@[k]@) by {
            assert(configs@.map_values(|c: Config| c@)[k] == configs@[k]@);
        }
    }
    let r = Registry { configs };
    proof {
        lemma_each_language_found();
        let t = language_table();
        assert(last_with_ext(t, t[0].ext) == Some(0int));
        assert(last_with_ext(t, t[1].ext) == Some(1int));
        assert(last_with_ext(t, t[2].ext) == Some(2int));
        assert(last_with_ext(t, t[3].ext) == Some(3int));
        assert(last_with_ext(t, t[4].ext) == Some(4int));
        assert(last_with_ext(t, t[5].ext) == Some(5int));
        assert(last_with_ext(t, t[6].ext) == Some(6int));
        assert(last_with_ext(t, t[7].ext) == Some(7int));
        assert(last_with_ext(t, t[8].ext) == Some(8int));
        assert(last_with_ext(t, t[9].ext) == Some(9int));
        assert(last_with_ext(t, t[10].ext) == Some(10int));
        assert(last_with_ext(t, t[11].ext) == Some(11int));
        assert(last_with_ext(t, t[12].ext) == Some(12int));
    }
    r
}


/// Looking up the extension of the `k`-th language, when no two languages share an
/// extension, finds that language.
pub proof fn lemma_last_with_ext_distinct(cs: Seq<ConfigView>, k: int)
    requires
        0 <= k < cs.len(),
        forall|i: int, j: int| 0 <= i < j < cs.len() ==> (#[trigger] cs[i]).ext != (#[trigger] cs[j]).ext,
    ensures
        last_with_ext(cs, cs[k].ext) == Some(k),
    decreases cs.len(),
{
    if k < cs.len() - 1 {
        assert(cs.last().ext != cs[k].ext);
        assert(cs.drop_last()[k] == cs[k]);
        lemma_last_with_ext_distinct(cs.drop_last(), k);
    }
}

/// No two known languages share an extension.
pub proof fn lemma_language_exts_distinct()
    ensures
        forall|i: int, j: int|
            0 <= i < j < language_table().len() ==> (#[trigger] language_table()[i]).ext != (#[trigger] language_table()[j]).ext,
{
    reveal_strlit("rs");
    reveal_strlit("go");
    reveal_strlit("cpp");
    reveal_strlit("c");
    reveal_strlit("js");
    reveal_strlit("java");
    reveal_strlit("kt");
    reveal_strlit("ts");
    reveal_strlit("py");
    reveal_strlit("sh");
    reveal_strlit("rb");
    reveal_strlit("md");
    reveal_strlit("html");
    let t = language_table();
    assert forall|i: int, j: int| 0 <= i < j < t.len() implies (#[trigger] t[i]).ext != (#[trigger] t[j]).ext by {
        if t[i].ext.len() == t[j].ext.len() {
            assert(t[i].ext[0] != t[j].ext[0] || t[i].ext[1] != t[j].ext[1]);
        }
    }
}

/// Every known language is found under its own extension.
pub proof fn lemma_each_language_found()
    ensures
        forall|k: int| 0 <= k < language_table().len() ==> last_with_ext(language_table(), #[trigger] language_table()[k].ext) == Some(k),
{
    lemma_language_exts_distinct();
    assert forall|k: int| 0 <= k < language_table().len() implies last_with_ext(language_table(), #[trigger] language_table()[k].ext) == Some(k) by {
        lemma_last_with_ext_distinct(language_table(), k);
    }
}

/// Every known language is one the scanner can run on.
pub proof fn lemma_language_table_wf()
    ensures
        forall|k: int| 0 <= k < language_table().len() ==> config_wf(#[trigger] language_table()[k]),
{
    reveal_strlit("/*");
    reveal_strlit("<!--");
    reveal_strlit("\"\"\"");
    reveal_strlit("=begin");
    let t = language_table();
    assert forall|k: int| 0 <= k < t.len() implies config_wf(#[trigger] t[k]) by {
        assert forall|m: int| 0 <= m < t[k].comments.len() implies comment_wf(#[trigger] t[k].comments[m]) by {}
    }
}
} // verus!
