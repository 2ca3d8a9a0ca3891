//! Packages as the registry reports them, and the selection of their
//! declared dependencies by the optional flag.

use vstd::prelude::*;

verus! {

/// A declared dependency as the registry reports it: the depended-on
/// package's name, the version requirement, and whether the dependency
/// is optional.
pub struct DeclaredDep {
    pub name: String,
    pub req: String,
    pub optional: bool,
}

/// The mathematical content of a declared dependency.
#[verifier::ext_equal]
pub ghost struct DeclaredDepView {
    pub name: Seq<char>,
    pub req: Seq<char>,
    pub optional: bool,
}

impl View for DeclaredDep {
    type V = DeclaredDepView;

    open spec fn view(&self) -> DeclaredDepView {
        DeclaredDepView { name: self.name@, req: self.req@, optional: self.optional }
    }
}

impl DeepView for DeclaredDep {
    type V = DeclaredDepView;

    open spec fn deep_view(&self) -> DeclaredDepView {
        self.view()
    }
}

/// A package: its name, homepage url, the declared dependencies that were
/// selected (as (name, version requirement) pairs), and whether the name
/// marks it as internal.
pub struct Package {
    pub name: String,
    pub url: String,
    pub dependencies: Vec<(String, String)>,
    pub internal: bool,
}

/// The mathematical content of a package.
#[verifier::ext_equal]
pub ghost struct PackageView {
    pub name: Seq<char>,
    pub url: Seq<char>,
    pub dependencies: Seq<(Seq<char>, Seq<char>)>,
    pub internal: bool,
}

impl View for Package {
    type V = PackageView;

    open spec fn view(&self) -> PackageView {
        PackageView {
            name: self.name@,
            url: self.url@,
            dependencies: self.dependencies.deep_view(),
            internal: self.internal,
        }
    }
}

impl DeepView for Package {
    type V = PackageView;

    open spec fn deep_view(&self) -> PackageView {
        self.view()
    }
}

impl Package {
    /// An equal copy of the package.
    pub fn duplicate(&self) -> (r: Package)
        ensures
            r@ == self@,
    {
        Package {
            name: self.name.clone(),
            url: self.url.clone(),
            dependencies: clone_pairs(&self.dependencies),
            internal: self.internal,
        }
    }

    /// Builds a package from its parts.
    pub fn new(
        name: String,
        url: String,
        dependencies: Vec<(String, String)>,
        internal: bool,
    ) -> (r: Package)
        ensures
            r@.name == name@,
            r@.url == url@,
            r@.dependencies == dependencies.deep_view(),
            r@.internal == internal,
    {
        Package { name, url, dependencies, internal }
    }
}

/// An equal copy of a list of (name, version requirement) pairs.
pub fn clone_pairs(v: &Vec<(String, String)>) -> (r: Vec<(String, String)>)
    ensures
        r.deep_view() == v.deep_view(),
{
    let mut out: Vec<(String, String)> = Vec::new();
    let mut i: usize = 0;
    while i < v.len()
        invariant
            i <= v@.len(),
            out@.len() == i,
            out.deep_view() == v.deep_view().take(i as int),
        decreases v@.len() - i,
    {
        let pair = (v[i].0.clone(), v[i].1.clone());
        let ghost pv = pair.deep_view();
        proof {
            assert(pv == v.deep_view()[i as int]);
        }
        let ghost out_before = out@;
        out.push(pair);
        i = i + 1;
        proof {
            assert(out@ == out_before.push(pair));
            assert forall|k: int| 0 <= k < i implies out.deep_view()[k] == v.deep_view().take(
                i as int,
            )[k] by {
                if k == i - 1 {
                    assert(out@[k].deep_view() == pv);
                }
            }
            assert(out.deep_view() =~= v.deep_view().take(i as int));
        }
    }
    proof {
        assert(v.deep_view().take(v@.len() as int) =~= v.deep_view());
    }
    out
}

/// Whether a package name marks the package as internal: it starts with
/// "std".
pub open spec fn is_internal_name(name: Seq<char>) -> bool {
    name.len() >= 3 && name.subrange(0, 3) == "std"@
}

/// Relies on str::starts_with: true exactly when `p` is a prefix of `s`.
#[verifier::external_body]
fn str_starts_with(s: &str, p: &str) -> (r: bool)
    ensures
        r == (s@.len() >= p@.len() && s@.subrange(0, p@.len() as int) == p@),
{
    s.starts_with(p)
}

/// Whether the package name starts with "std".
pub fn name_is_internal(name: &String) -> (r: bool)
    ensures
        r == is_internal_name(name@),
{
    proof {
        reveal_strlit("std");
    }
    str_starts_with(name.as_str(), "std")
}

/// The (name, version requirement) pairs of the dependencies whose optional
/// flag equals `optional`, in declaration order.
pub open spec fn selected_deps(deps: Seq<DeclaredDepView>, optional: bool) -> Seq<
    (Seq<char>, Seq<char>),
>
    decreases deps.len(),
{
    if deps.len() == 0 {
        Seq::empty()
    } else {
        let rest = selected_deps(deps.drop_last(), optional);
        if deps.last().optional == optional {
            rest.push((deps.last().name, deps.last().req))
        } else {
            rest
        }
    }
}

/// Keeps exactly the declared dependencies whose optional flag equals
/// `optional`: both selection modes are strict, neither follows all
/// dependencies.
pub fn filter_dependencies(deps: &Vec<DeclaredDep>, optional: bool) -> (r: Vec<(String, String)>)
    ensures
        r.deep_view() == selected_deps(deps.deep_view(), optional),
{
    let mut out: Vec<(String, String)> = Vec::new();
    let mut i: usize = 0;
    while i < deps.len()
        invariant
            i <= deps.len(),
            out.deep_view() == selected_deps(deps.deep_view().take(i as int), optional),
        decreases deps.len() - i,
    {
        let d = &deps[i];
        if d.optional == optional {
            out.push((d.name.clone(), d.req.clone()));
        }
        i = i + 1;
        proof {
            let dv = deps.deep_view();
            assert(dv.take(i as int).drop_last() =~= dv.take(i - 1));
            assert(dv.take(i as int).last() == dv[i - 1]);
        }
    }
    proof {
        assert(deps.deep_view().take(deps.len() as int) =~= deps.deep_view());
    }
    out
}

#[verifier::external_type_specification]
#[verifier::external_body]
pub struct ExTomlError(toml::de::Error);

/// The keys of the named top-level table of a TOML document, in the
/// order toml reports them; the empty list when the document has no such
/// table; nothing exactly when the document is not valid TOML.
pub uninterp spec fn toml_table_keys(doc: Seq<char>, table: Seq<char>) -> Option<Seq<Seq<char>>>;

/// Relies on toml's document parser (str::parse::<toml::Table>) and
/// Table::get: returns the keys of the named top-level table, an empty
/// list when the document has no such table, and the parser's error
/// exactly when the document is not valid TOML.
#[verifier::external_body]
fn toml_keys_of_table(content: &str, table: &str) -> (r: Result<Vec<String>, toml::de::Error>)
    ensures
        match r {
            Ok(keys) => toml_table_keys(content@, table@) == Some(keys.deep_view()),
            Err(_) => toml_table_keys(content@, table@) is None,
        },
{
    let document: toml::Table = content.parse()?;
    match document.get(table) {
        Some(toml::Value::Table(t)) => Ok(t.iter().map(|(k, _)| k.clone()).collect()),
        _ => Ok(Vec::new()),
    }
}

/// Relies on toml::de::Error's Display implementation for the message
/// text of a parse error.
#[verifier::external_body]
fn toml_error_text(e: &toml::de::Error) -> (r: String) {
    format!("{}", e)
}

/// The error a manifest that does not parse is reported with.
#[derive(Debug)]
pub struct ParseError {
    pub message: String,
}

/// The names of the packages the [dependencies] table of a manifest
/// declares, in the order toml reports them; an empty list when the
/// manifest has no such table; an error exactly when the text is not
/// valid TOML.
pub fn parse_dependencies(cargo_toml_content: &str) -> (r: Result<Vec<String>, ParseError>)
    ensures
        match r {
            Ok(names) => toml_table_keys(cargo_toml_content@, "dependencies"@) == Some(
                names.deep_view(),
            ),
            Err(_) => toml_table_keys(cargo_toml_content@, "dependencies"@) is None,
        },
{
    match toml_keys_of_table(cargo_toml_content, "dependencies") {
        Ok(v) => Ok(v),
        Err(e) => Err(ParseError { message: toml_error_text(&e) }),
    }
}

/// No two declared dependencies share a name.
pub open spec fn dep_names_distinct(deps: Seq<DeclaredDepView>) -> bool {
    forall|i: int, j: int| 0 <= i < j < deps.len() ==> deps[i].name != deps[j].name
}

/// A pair is selected for mode `optional` exactly when some declared
/// dependency with that flag has that name and requirement.
pub proof fn lemma_selected_deps_characterization(
    deps: Seq<DeclaredDepView>,
    optional: bool,
    p: (Seq<char>, Seq<char>),
)
    ensures
        selected_deps(deps, optional).contains(p) <==> exists|i: int|
            0 <= i < deps.len() && deps[i].optional == optional && deps[i].name == p.0
                && deps[i].req == p.1,
    decreases deps.len(),
{
    if deps.len() > 0 {
        lemma_selected_deps_characterization(deps.drop_last(), optional, p);
        let rest = selected_deps(deps.drop_last(), optional);
        let whole = selected_deps(deps, optional);
        if selected_deps(deps.drop_last(), optional).contains(p) {
            let i = choose|i: int|
                0 <= i < deps.drop_last().len() && deps.drop_last()[i].optional == optional
                    && deps.drop_last()[i].name == p.0 && deps.drop_last()[i].req == p.1;
            assert(deps[i].optional == optional && deps[i].name == p.0 && deps[i].req == p.1);
        }
        if whole.contains(p) {
            let k = choose|k: int| 0 <= k < whole.len() && whole[k] == p;
            if deps.last().optional == optional && k == whole.len() - 1 {
                assert(deps[deps.len() - 1].optional == optional && deps[deps.len() - 1].name
                    == p.0 && deps[deps.len() - 1].req == p.1);
            } else {
                assert(rest[k] == p);
                assert(rest.contains(p));
            }
        }
        if exists|i: int|
            0 <= i < deps.len() && deps[i].optional == optional && deps[i].name == p.0
                && deps[i].req == p.1 {
            let i = choose|i: int|
                0 <= i < deps.len() && deps[i].optional == optional && deps[i].name == p.0
                    && deps[i].req == p.1;
            if i < deps.len() - 1 {
                assert(deps.drop_last()[i].optional == optional && deps.drop_last()[i].name == p.0
                    && deps.drop_last()[i].req == p.1);
                assert(rest.contains(p));
                let k = choose|k: int| 0 <= k < rest.len() && rest[k] == p;
                assert(whole[k] == p);
            } else {
                if deps.last().optional == optional {
                    assert(whole.last() == p);
                }
            }
        }
    }
}

/// The two selection modes split the declared dependency list: together they
/// account for every declared dependency, and when no two dependencies share
/// a name, no pair is selected by both modes.
pub proof fn lemma_optional_partition(deps: Seq<DeclaredDepView>)
    ensures
        selected_deps(deps, true).len() + selected_deps(deps, false).len() == deps.len(),
        forall|p: (Seq<char>, Seq<char>)|
            #![trigger selected_deps(deps, true).contains(p)]
            #![trigger selected_deps(deps, false).contains(p)]
            selected_deps(deps, true).contains(p) || selected_deps(deps, false).contains(p)
                <==> exists|i: int| 0 <= i < deps.len() && deps[i].name == p.0 && deps[i].req == p.1,
        dep_names_distinct(deps) ==> forall|p: (Seq<char>, Seq<char>)|
            !(#[trigger] selected_deps(deps, true).contains(p) && selected_deps(
                deps,
                false,
            ).contains(p)),
    decreases deps.len(),
{
    if deps.len() > 0 {
        lemma_optional_partition(deps.drop_last());
    }
    assert forall|p: (Seq<char>, Seq<char>)|
        selected_deps(deps, true).contains(p) || selected_deps(deps, false).contains(p) <==> exists|
            i: int,
        | 0 <= i < deps.len() && deps[i].name == p.0 && deps[i].req == p.1 by {
        lemma_selected_deps_characterization(deps, true, p);
        lemma_selected_deps_characterization(deps, false, p);
    }
    if dep_names_distinct(deps) {
        assert forall|p: (Seq<char>, Seq<char>)|
            !(#[trigger] selected_deps(deps, true).contains(p) && selected_deps(
                deps,
                false,
            ).contains(p)) by {
            lemma_selected_deps_characterization(deps, true, p);
            lemma_selected_deps_characterization(deps, false, p);
            if selected_deps(deps, true).contains(p) && selected_deps(deps, false).contains(p) {
                let i = choose|i: int|
                    0 <= i < deps.len() && deps[i].optional == true && deps[i].name == p.0
                        && deps[i].req == p.1;
                let j = choose|j: int|
                    0 <= j < deps.len() && deps[j].optional == false && deps[j].name == p.0
                        && deps[j].req == p.1;
                assert(i != j);
                assert(deps[i].name == deps[j].name);
            }
        }
    }
}

} // verus!
