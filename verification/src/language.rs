use vstd::prelude::*;

verus! {

/// A supported source language: a closed set of variants, each carrying
/// its source-directory name, file extension, and the textual syntax of
/// its package declaration and class declaration.
#[derive(Clone, Copy, Debug, PartialEq, Eq, Structural)]
pub enum Language {
    Java,
    Kotlin,
}

impl Language {
    /// The name of this language's subdirectory under the source root.
    pub open spec fn source_dir_spec(self) -> Seq<char> {
        match self {
            Language::Java => "java"@,
            Language::Kotlin => "kotlin"@,
        }
    }

    /// The suffix of this language's source files, without the dot.
    pub open spec fn extension_spec(self) -> Seq<char> {
        match self {
            Language::Java => "java"@,
            Language::Kotlin => "kt"@,
        }
    }

    /// The line that introduces a package, instantiated with the dotted
    /// package name: Java ends it with a semicolon, Kotlin does not.
    pub open spec fn package_decl_spec(self, name: Seq<char>) -> Seq<char> {
        match self {
            Language::Java => "package "@ + name + ";"@,
            Language::Kotlin => "package "@ + name,
        }
    }

    /// The keyword that introduces this language's main class declaration,
    /// with a trailing space, ready to be prefixed to a simple class name.
    /// The scaffolded project templates declare their entry class with
    /// `class` in Java and with `object` in Kotlin.
    pub open spec fn class_keyword_spec(self) -> Seq<char> {
        match self {
            Language::Java => "class "@,
            Language::Kotlin => "object "@,
        }
    }

    /// The token a class declaration rewrite looks for or produces: the
    /// declaration keyword followed by the simple class name.
    pub open spec fn class_decl_spec(self, simple: Seq<char>) -> Seq<char> {
        self.class_keyword_spec() + simple
    }

    pub fn source_dir_name(&self) -> (r: String)
        ensures
            r@ == self.source_dir_spec(),
    {
        match self {
            Language::Java => String::from_str("java"),
            Language::Kotlin => String::from_str("kotlin"),
        }
    }

    pub fn extension(&self) -> (r: String)
        ensures
            r@ == self.extension_spec(),
    {
        match self {
            Language::Java => String::from_str("java"),
            Language::Kotlin => String::from_str("kt"),
        }
    }

    /// The declaration line for `name`, in this language's syntax.
    pub fn package_decl(&self, name: &str) -> (r: String)
        ensures
            r@ == self.package_decl_spec(name@),
    {
        let mut out = String::from_str("package ");
        out.append(name);
        match self {
            Language::Java => {
                out.append(";");
            },
            Language::Kotlin => {},
        }
        out
    }

    /// The class declaration token for `simple`, in this language's
    /// syntax.
    pub fn class_decl(&self, simple: &str) -> (r: String)
        ensures
            r@ == self.class_decl_spec(simple@),
    {
        let mut out = match self {
            Language::Java => String::from_str("class "),
            Language::Kotlin => String::from_str("object "),
        };
        out.append(simple);
        out
    }
}

/// A package declaration is never empty: it starts with the keyword.
pub proof fn lemma_package_decl_nonempty(lang: Language, name: Seq<char>)
    ensures
        lang.package_decl_spec(name).len() >= 1,
{
    reveal_strlit("package ");
}

/// A class declaration token is never empty: it starts with the keyword.
pub proof fn lemma_class_decl_nonempty(lang: Language, simple: Seq<char>)
    ensures
        lang.class_decl_spec(simple).len() >= 1,
{
    reveal_strlit("class ");
    reveal_strlit("object ");
}

} // verus!
