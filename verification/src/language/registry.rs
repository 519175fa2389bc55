//! The languages whose sources are analyzed, with their file extensions.

use vstd::prelude::*;

verus! {

/// A language and the file extensions of its sources.
pub struct Language {
    pub language_name: &'static str,
    pub extensions: Vec<&'static str>,
}

/// The texts of a list of string slices.
pub open spec fn str_views(v: Seq<&str>) -> Seq<Seq<char>> {
    v.map_values(|s: &str| s@)
}

/// A language as the specification sees it: its name and its extensions.
pub type LanguageView = (Seq<char>, Seq<Seq<char>>);

pub open spec fn language_view(l: Language) -> LanguageView {
    (l.language_name@, str_views(l.extensions@))
}

pub open spec fn bash_language_view() -> LanguageView {
    ("Bash"@, seq!["bash"@])
}

/// Bash.
pub fn bash_language() -> (l: Language)
    ensures
        language_view(l) == bash_language_view(),
{
    let l = Language { language_name: "Bash", extensions: vec!["bash"] };
    assert(str_views(l.extensions@) =~= bash_language_view().1);
    l
}

pub open spec fn c_language_view() -> LanguageView {
    ("C"@, seq!["c"@, "h"@])
}

/// C.
pub fn c_language() -> (l: Language)
    ensures
        language_view(l) == c_language_view(),
{
    let l = Language { language_name: "C", extensions: vec!["c", "h"] };
    assert(str_views(l.extensions@) =~= c_language_view().1);
    l
}

pub open spec fn c_sharp_language_view() -> LanguageView {
    ("C#"@, seq!["cs"@])
}

/// C#.
pub fn c_sharp_language() -> (l: Language)
    ensures
        language_view(l) == c_sharp_language_view(),
{
    let l = Language { language_name: "C#", extensions: vec!["cs"] };
    assert(str_views(l.extensions@) =~= c_sharp_language_view().1);
    l
}

pub open spec fn c_plus_plus_language_view() -> LanguageView {
    ("C++"@, seq!["cpp"@, "hpp"@, "cc"@, "hh"@, "cxx"@, "hxx"@])
}

/// C++.
pub fn c_plus_plus_language() -> (l: Language)
    ensures
        language_view(l) == c_plus_plus_language_view(),
{
    let l = Language { language_name: "C++", extensions: vec!["cpp", "hpp", "cc", "hh", "cxx", "hxx"] };
    assert(str_views(l.extensions@) =~= c_plus_plus_language_view().1);
    l
}

pub open spec fn css_language_view() -> LanguageView {
    ("CSS"@, seq!["css"@])
}

/// CSS.
pub fn css_language() -> (l: Language)
    ensures
        language_view(l) == css_language_view(),
{
    let l = Language { language_name: "CSS", extensions: vec!["css"] };
    assert(str_views(l.extensions@) =~= css_language_view().1);
    l
}

pub open spec fn fish_language_view() -> LanguageView {
    ("Fish"@, seq!["fish"@])
}

/// Fish.
pub fn fish_language() -> (l: Language)
    ensures
        language_view(l) == fish_language_view(),
{
    let l = Language { language_name: "Fish", extensions: vec!["fish"] };
    assert(str_views(l.extensions@) =~= fish_language_view().1);
    l
}

pub open spec fn go_language_view() -> LanguageView {
    ("Go"@, seq!["go"@])
}

/// Go.
pub fn go_language() -> (l: Language)
    ensures
        language_view(l) == go_language_view(),
{
    let l = Language { language_name: "Go", extensions: vec!["go"] };
    assert(str_views(l.extensions@) =~= go_language_view().1);
    l
}

pub open spec fn html_language_view() -> LanguageView {
    ("HTML"@, seq!["html"@, "htm"@])
}

/// HTML.
pub fn html_language() -> (l: Language)
    ensures
        language_view(l) == html_language_view(),
{
    let l = Language { language_name: "HTML", extensions: vec!["html", "htm"] };
    assert(str_views(l.extensions@) =~= html_language_view().1);
    l
}

pub open spec fn java_language_view() -> LanguageView {
    ("Java"@, seq!["java"@])
}

/// Java.
pub fn java_language() -> (l: Language)
    ensures
        language_view(l) == java_language_view(),
{
    let l = Language { language_name: "Java", extensions: vec!["java"] };
    assert(str_views(l.extensions@) =~= java_language_view().1);
    l
}

pub open spec fn javascript_language_view() -> LanguageView {
    ("JavaScript"@, seq!["js"@, "jsx"@, "mjs"@, "cjs"@])
}

/// JavaScript.
pub fn javascript_language() -> (l: Language)
    ensures
        language_view(l) == javascript_language_view(),
{
    let l = Language { language_name: "JavaScript", extensions: vec!["js", "jsx", "mjs", "cjs"] };
    assert(str_views(l.extensions@) =~= javascript_language_view().1);
    l
}

pub open spec fn kotlin_language_view() -> LanguageView {
    ("Kotlin"@, seq!["kt"@, "kts"@])
}

/// Kotlin.
pub fn kotlin_language() -> (l: Language)
    ensures
        language_view(l) == kotlin_language_view(),
{
    let l = Language { language_name: "Kotlin", extensions: vec!["kt", "kts"] };
    assert(str_views(l.extensions@) =~= kotlin_language_view().1);
    l
}

pub open spec fn less_language_view() -> LanguageView {
    ("Less"@, seq!["less"@])
}

/// Less.
pub fn less_language() -> (l: Language)
    ensures
        language_view(l) == less_language_view(),
{
    let l = Language { language_name: "Less", extensions: vec!["less"] };
    assert(str_views(l.extensions@) =~= less_language_view().1);
    l
}

pub open spec fn objective_c_language_view() -> LanguageView {
    ("Objective-C"@, seq!["m"@, "mm"@])
}

/// Objective-C.
pub fn objective_c_language() -> (l: Language)
    ensures
        language_view(l) == objective_c_language_view(),
{
    let l = Language { language_name: "Objective-C", extensions: vec!["m", "mm"] };
    assert(str_views(l.extensions@) =~= objective_c_language_view().1);
    l
}

pub open spec fn php_language_view() -> LanguageView {
    ("PHP"@, seq!["php"@, "phtml"@])
}

/// PHP.
pub fn php_language() -> (l: Language)
    ensures
        language_view(l) == php_language_view(),
{
    let l = Language { language_name: "PHP", extensions: vec!["php", "phtml"] };
    assert(str_views(l.extensions@) =~= php_language_view().1);
    l
}

pub open spec fn powershell_language_view() -> LanguageView {
    ("PowerShell"@, seq!["ps1"@, "psm1"@, "psd1"@])
}

/// PowerShell.
pub fn powershell_language() -> (l: Language)
    ensures
        language_view(l) == powershell_language_view(),
{
    let l = Language { language_name: "PowerShell", extensions: vec!["ps1", "psm1", "psd1"] };
    assert(str_views(l.extensions@) =~= powershell_language_view().1);
    l
}

pub open spec fn python_language_view() -> LanguageView {
    ("Python"@, seq!["py"@, "pyw"@])
}

/// Python.
pub fn python_language() -> (l: Language)
    ensures
        language_view(l) == python_language_view(),
{
    let l = Language { language_name: "Python", extensions: vec!["py", "pyw"] };
    assert(str_views(l.extensions@) =~= python_language_view().1);
    l
}

pub open spec fn ruby_language_view() -> LanguageView {
    ("Ruby"@, seq!["rb"@])
}

/// Ruby.
pub fn ruby_language() -> (l: Language)
    ensures
        language_view(l) == ruby_language_view(),
{
    let l = Language { language_name: "Ruby", extensions: vec!["rb"] };
    assert(str_views(l.extensions@) =~= ruby_language_view().1);
    l
}

pub open spec fn rust_language_view() -> LanguageView {
    ("Rust"@, seq!["rs"@])
}

/// Rust.
pub fn rust_language() -> (l: Language)
    ensures
        language_view(l) == rust_language_view(),
{
    let l = Language { language_name: "Rust", extensions: vec!["rs"] };
    assert(str_views(l.extensions@) =~= rust_language_view().1);
    l
}

pub open spec fn sass_language_view() -> LanguageView {
    ("Sass"@, seq!["sass"@])
}

/// Sass.
pub fn sass_language() -> (l: Language)
    ensures
        language_view(l) == sass_language_view(),
{
    let l = Language { language_name: "Sass", extensions: vec!["sass"] };
    assert(str_views(l.extensions@) =~= sass_language_view().1);
    l
}

pub open spec fn scala_language_view() -> LanguageView {
    ("Scala"@, seq!["scala"@, "sc"@])
}

/// Scala.
pub fn scala_language() -> (l: Language)
    ensures
        language_view(l) == scala_language_view(),
{
    let l = Language { language_name: "Scala", extensions: vec!["scala", "sc"] };
    assert(str_views(l.extensions@) =~= scala_language_view().1);
    l
}

pub open spec fn scss_language_view() -> LanguageView {
    ("SCSS"@, seq!["scss"@])
}

/// SCSS.
pub fn scss_language() -> (l: Language)
    ensures
        language_view(l) == scss_language_view(),
{
    let l = Language { language_name: "SCSS", extensions: vec!["scss"] };
    assert(str_views(l.extensions@) =~= scss_language_view().1);
    l
}

pub open spec fn shell_language_view() -> LanguageView {
    ("Shell"@, seq!["sh"@])
}

/// Shell.
pub fn shell_language() -> (l: Language)
    ensures
        language_view(l) == shell_language_view(),
{
    let l = Language { language_name: "Shell", extensions: vec!["sh"] };
    assert(str_views(l.extensions@) =~= shell_language_view().1);
    l
}

pub open spec fn sql_language_view() -> LanguageView {
    ("SQL"@, seq!["sql"@])
}

/// SQL.
pub fn sql_language() -> (l: Language)
    ensures
        language_view(l) == sql_language_view(),
{
    let l = Language { language_name: "SQL", extensions: vec!["sql"] };
    assert(str_views(l.extensions@) =~= sql_language_view().1);
    l
}

pub open spec fn swift_language_view() -> LanguageView {
    ("Swift"@, seq!["swift"@])
}

/// Swift.
pub fn swift_language() -> (l: Language)
    ensures
        language_view(l) == swift_language_view(),
{
    let l = Language { language_name: "Swift", extensions: vec!["swift"] };
    assert(str_views(l.extensions@) =~= swift_language_view().1);
    l
}

pub open spec fn typescript_language_view() -> LanguageView {
    ("TypeScript"@, seq!["ts"@, "tsx"@])
}

/// TypeScript.
pub fn typescript_language() -> (l: Language)
    ensures
        language_view(l) == typescript_language_view(),
{
    let l = Language { language_name: "TypeScript", extensions: vec!["ts", "tsx"] };
    assert(str_views(l.extensions@) =~= typescript_language_view().1);
    l
}

pub open spec fn xml_language_view() -> LanguageView {
    ("XML"@, seq!["xml"@, "xhtml"@, "svg"@])
}

/// XML.
pub fn xml_language() -> (l: Language)
    ensures
        language_view(l) == xml_language_view(),
{
    let l = Language { language_name: "XML", extensions: vec!["xml", "xhtml", "svg"] };
    assert(str_views(l.extensions@) =~= xml_language_view().1);
    l
}

pub open spec fn yaml_language_view() -> LanguageView {
    ("YAML"@, seq!["yaml"@, "yml"@])
}

/// YAML.
pub fn yaml_language() -> (l: Language)
    ensures
        language_view(l) == yaml_language_view(),
{
    let l = Language { language_name: "YAML", extensions: vec!["yaml", "yml"] };
    assert(str_views(l.extensions@) =~= yaml_language_view().1);
    l
}

pub open spec fn zsh_language_view() -> LanguageView {
    ("Zsh"@, seq!["zsh"@])
}

/// Zsh.
pub fn zsh_language() -> (l: Language)
    ensures
        language_view(l) == zsh_language_view(),
{
    let l = Language { language_name: "Zsh", extensions: vec!["zsh"] };
    assert(str_views(l.extensions@) =~= zsh_language_view().1);
    l
}

/// The languages, in the order of their names.
pub open spec fn language_registry() -> Seq<LanguageView> {
    seq![
        bash_language_view(),
        c_language_view(),
        c_sharp_language_view(),
        c_plus_plus_language_view(),
        css_language_view(),
        fish_language_view(),
        go_language_view(),
        html_language_view(),
        java_language_view(),
        javascript_language_view(),
        kotlin_language_view(),
        less_language_view(),
        objective_c_language_view(),
        php_language_view(),
        powershell_language_view(),
        python_language_view(),
        ruby_language_view(),
        rust_language_view(),
        sass_language_view(),
        scala_language_view(),
        scss_language_view(),
        shell_language_view(),
        sql_language_view(),
        swift_language_view(),
        typescript_language_view(),
        xml_language_view(),
        yaml_language_view(),
        zsh_language_view(),
    ]
}

/// The languages, in the order of their names.
pub fn languages() -> (r: Vec<Language>)
    ensures
        r@.map_values(|l: Language| language_view(l)) == language_registry(),
{
    let r = vec![
        bash_language(),
        c_language(),
        c_sharp_language(),
        c_plus_plus_language(),
        css_language(),
        fish_language(),
        go_language(),
        html_language(),
        java_language(),
        javascript_language(),
        kotlin_language(),
        less_language(),
        objective_c_language(),
        php_language(),
        powershell_language(),
        python_language(),
        ruby_language(),
        rust_language(),
        sass_language(),
        scala_language(),
        scss_language(),
        shell_language(),
        sql_language(),
        swift_language(),
        typescript_language(),
        xml_language(),
        yaml_language(),
        zsh_language(),
    ];
    assert(r@.map_values(|l: Language| language_view(l)) =~= language_registry());
    r
}

/// The texts of a list of strings.
pub open spec fn string_views(v: Seq<String>) -> Seq<Seq<char>> {
    v.map_values(|s: String| s@)
}

/// The lists of `s` one after the other.
pub open spec fn concat_all(s: Seq<Seq<Seq<char>>>) -> Seq<Seq<char>>
    decreases s.len(),
{
    if s.len() == 0 {
        Seq::empty()
    } else {
        concat_all(s.drop_last()) + s.last()
    }
}

/// The texts of `s` in the order they first appear, each once.
pub open spec fn first_appearances(s: Seq<Seq<char>>) -> Seq<Seq<char>>
    decreases s.len(),
{
    if s.len() == 0 {
        Seq::empty()
    } else {
        let r = first_appearances(s.drop_last());
        if r.contains(s.last()) {
            r
        } else {
            r.push(s.last())
        }
    }
}

/// The extensions of every language, in registry order.
pub open spec fn registry_extensions() -> Seq<Seq<char>> {
    concat_all(language_registry().map_values(|l: LanguageView| l.1))
}

/// Whether one of the strings has the text `t`.
pub fn contains_string(v: &Vec<String>, t: &String) -> (r: bool)
    ensures
        r == string_views(v@).contains(t@),
{
    let mut k: usize = 0;
    while k < v.len()
        invariant
            k <= v.len(),
            forall|i: int| 0 <= i < k ==> #[trigger] string_views(v@)[i] != t@,
        decreases v.len() - k,
    {
        if v[k] == *t {
            assert(string_views(v@)[k as int] == t@);
            return true;
        }
        k += 1;
    }
    false
}

/// Every extension of every language, each once, in registry order.
pub fn supported_file_extensions() -> (r: Vec<String>)
    ensures
        string_views(r@) == first_appearances(registry_extensions()),
{
    let languages = languages();
    let ghost lists = language_registry().map_values(|l: LanguageView| l.1);
    let mut extensions: Vec<String> = Vec::new();
    let mut i: usize = 0;
    proof {
        assert(lists.take(0) =~= Seq::<Seq<Seq<char>>>::empty());
        assert(string_views(extensions@) =~= first_appearances(concat_all(lists.take(0))));
    }
    while i < languages.len()
        invariant
            i <= languages@.len(),
            languages@.len() == lists.len(),
            forall|k: int| 0 <= k < lists.len() ==> #[trigger] lists[k] == str_views(languages@[k].extensions@),
            string_views(extensions@) == first_appearances(concat_all(lists.take(i as int))),
        decreases languages.len() - i,
    {
        let exts = &languages[i].extensions;
        let ghost base = concat_all(lists.take(i as int));
        let mut j: usize = 0;
        proof {
            assert(base + lists[i as int].take(0) =~= base);
        }
        while j < exts.len()
            invariant
                j <= exts@.len(),
                exts@ == languages@[i as int].extensions@,
                lists[i as int] == str_views(exts@),
                string_views(extensions@) == first_appearances(base + lists[i as int].take(j as int)),
            decreases exts.len() - j,
        {
            let extension = exts[j].to_owned();
            let ghost before = base + lists[i as int].take(j as int);
            proof {
                assert(lists[i as int][j as int] == extension@);
                assert(base + lists[i as int].take(j + 1) =~= before.push(extension@));
                assert(before.push(extension@).drop_last() =~= before);
            }
            if !contains_string(&extensions, &extension) {
                let ghost old_views = string_views(extensions@);
                extensions.push(extension);
                assert(string_views(extensions@) =~= old_views.push(extension@));
            }
            j += 1;
        }
        proof {
            assert(lists[i as int].take(exts@.len() as int) =~= lists[i as int]);
            assert(lists.take(i + 1).drop_last() =~= lists.take(i as int));
        }
        i += 1;
    }
    proof {
        assert(lists.take(i as int) =~= lists);
    }
    extensions
}

} // verus!
