//! What a view generator decides about one record type before it emits any
//! code: which attribute names the module of the record, what the library the
//! generated code refers to is called, and the names of the generated items.

use vstd::prelude::*;
use vstd::string::*;

verus! {

/// One attribute of a record declaration, as far as the generator reads it.
#[derive(Debug)]
pub struct Attribute {
    /// The attribute's name, where its path is a single identifier.
    pub ident: Option<String>,
    /// The text between the brackets of `name(...)`; `None` where the
    /// attribute is not written as a list.
    pub list: Option<String>,
}

/// What one attribute means to the generator.
#[derive(Clone, Copy, Debug, PartialEq, Eq, Structural)]
pub enum Mark {
    /// Not a `module` attribute.
    Other,
    /// A `module` attribute that is not written as a list.
    NotAList,
    /// A `module` attribute whose content is no path.
    NoPath,
    /// A `module` attribute whose content is a path.
    Path,
}

/// Why the generator cannot go on.
#[derive(Clone, Copy, Debug, PartialEq, Eq, Structural)]
pub enum GeneratorError {
    /// A `module` attribute is not written as `module(...)`.
    ModuleNotAList,
    /// No `module` attribute holds a path.
    ModuleMissing,
}

/// Asks `syn::parse_str::<syn::Path>` whether `text` parses as a path.
/// Nothing is claimed of the answer: it is `syn`'s, and `syn` reads the text
/// with one of two lexers, depending on whether the call is made from within
/// a procedural macro.
#[verifier::external_body]
fn parses_as_path(text: &str) -> (r: bool) {
    syn::parse_str::<syn::Path>(text).is_ok()
}

/// `attribute` is called `module`.
pub open spec fn is_module(attribute: Attribute) -> bool {
    attribute.ident matches Some(name) && name@ == "module"@
}

/// What `attribute` means to the generator, given whether its content is a
/// path.
pub open spec fn mark_of(attribute: Attribute, content_is_path: bool) -> Mark {
    if !is_module(attribute) {
        Mark::Other
    } else if attribute.list is None {
        Mark::NotAList
    } else if content_is_path {
        Mark::Path
    } else {
        Mark::NoPath
    }
}

/// `mark` is what `attribute` means under one of the two answers that a
/// parser can give on its content. The parser has a say only on a `module`
/// attribute written as a list; every other attribute has one mark.
pub open spec fn may_mean(attribute: Attribute, mark: Mark) -> bool {
    mark == mark_of(attribute, true) || mark == mark_of(attribute, false)
}

/// `marks` holds, for each of `attributes` in order, a mark that it may
/// have.
pub open spec fn possible_marks(attributes: Seq<Attribute>, marks: Seq<Mark>) -> bool {
    &&& marks.len() == attributes.len()
    &&& forall|i: int| 0 <= i < marks.len() ==> may_mean(attributes[i], #[trigger] marks[i])
}

/// The attribute that names the module of the record: the last one marked
/// `Path`. A `module` attribute that is no list is an error wherever it
/// stands, and so is the lack of any path.
pub open spec fn chosen_module(marks: Seq<Mark>) -> Result<int, GeneratorError> {
    if exists|i: int| 0 <= i < marks.len() && #[trigger] marks[i] == Mark::NotAList {
        Err(GeneratorError::ModuleNotAList)
    } else if exists|i: int| 0 <= i < marks.len() && #[trigger] marks[i] == Mark::Path {
        Ok(last_path(marks))
    } else {
        Err(GeneratorError::ModuleMissing)
    }
}

/// The position of the last mark `Path`, or -1 if there is none.
pub open spec fn last_path(marks: Seq<Mark>) -> int
    decreases marks.len(),
{
    if marks.len() == 0 {
        -1
    } else if marks.last() == Mark::Path {
        marks.len() - 1
    } else {
        last_path(marks.drop_last())
    }
}

/// `last_path` is the position of a `Path` mark after which no other
/// follows.
pub proof fn lemma_last_path(marks: Seq<Mark>)
    ensures
        -1 <= last_path(marks) < marks.len(),
        last_path(marks) >= 0 ==> marks[last_path(marks)] == Mark::Path,
        forall|j: int| last_path(marks) < j < marks.len() ==> #[trigger] marks[j] != Mark::Path,
    decreases marks.len(),
{
    if marks.len() > 0 && marks.last() != Mark::Path {
        lemma_last_path(marks.drop_last());
        assert forall|j: int| last_path(marks) < j < marks.len() implies #[trigger] marks[j]
            != Mark::Path by {
            if j < marks.len() - 1 {
                assert(marks.drop_last()[j] == marks[j]);
            }
        }
    }
}

/// Classifies one attribute, given whether its content is a path.
pub fn mark(attribute: &Attribute, content_is_path: bool) -> (m: Mark)
    ensures
        m == mark_of(*attribute, content_is_path),
{
    let module = "module".to_owned();
    match &attribute.ident {
        Some(name) => {
            if *name == module {
                match &attribute.list {
                    None => Mark::NotAList,
                    Some(_) => {
                        if content_is_path {
                            Mark::Path
                        } else {
                            Mark::NoPath
                        }
                    },
                }
            } else {
                Mark::Other
            }
        },
        None => Mark::Other,
    }
}

/// Classifies one attribute, asking `syn` whether the content of a list is
/// a path. The mark is one that the attribute may have; which of `Path` and
/// `NoPath` a `module` list gets is `syn`'s answer.
pub fn classify(attribute: &Attribute) -> (m: Mark)
    ensures
        may_mean(*attribute, m),
        !is_module(*attribute) ==> m == Mark::Other,
        is_module(*attribute) && attribute.list is None ==> m == Mark::NotAList,
        is_module(*attribute) && attribute.list is Some ==> m == Mark::Path || m == Mark::NoPath,
{
    let content_is_path = match &attribute.list {
        Some(text) => parses_as_path(text.as_str()),
        None => false,
    };
    mark(attribute, content_is_path)
}

/// Picks the attribute that names the module out of the marks of all
/// attributes, and returns its position.
pub fn choose_module(marks: &Vec<Mark>) -> (r: Result<usize, GeneratorError>)
    ensures
        match chosen_module(marks@) {
            Ok(i) => r matches Ok(k) && k as int == i && k < marks@.len() && marks@[k as int]
                == Mark::Path,
            Err(e) => r == Err::<usize, GeneratorError>(e),
        },
{
    let mut found: Option<usize> = None;
    let mut i: usize = 0;
    while i < marks.len()
        invariant
            i <= marks@.len(),
            forall|j: int| 0 <= j < i ==> #[trigger] marks@[j] != Mark::NotAList,
            match found {
                Some(k) => k as int == last_path(marks@.take(i as int)),
                None => last_path(marks@.take(i as int)) == -1,
            },
        decreases marks@.len() - i,
    {
        proof {
            assert(marks@.take(i + 1).drop_last() =~= marks@.take(i as int));
            assert(marks@.take(i + 1).last() == marks@[i as int]);
        }
        match marks[i] {
            Mark::NotAList => {
                return Err(GeneratorError::ModuleNotAList);
            },
            Mark::Path => {
                found = Some(i);
            },
            _ => {},
        }
        i += 1;
    }
    proof {
        assert(marks@.take(i as int) =~= marks@);
        lemma_last_path(marks@);
    }
    match found {
        Some(k) => Ok(k),
        None => Err(GeneratorError::ModuleMissing),
    }
}

/// Finds the attribute that names the module of the record among
/// `attributes`, and returns its position. Whether the content of a `module`
/// list is a path is asked of `syn`, so the result is what `choose_module`
/// gives on some marks that the attributes may have. Where `syn` has no say
/// the result is fixed: a `module` attribute that is no list is refused, and
/// without a `module` list the module is missing.
pub fn module_attr(attributes: &Vec<Attribute>) -> (r: Result<usize, GeneratorError>)
    ensures
        exists|marks: Seq<Mark>| #[trigger]
            possible_marks(attributes@, marks) && match chosen_module(marks) {
                Ok(i) => r matches Ok(k) && k as int == i,
                Err(e) => r == Err::<usize, GeneratorError>(e),
            },
        r == Err::<usize, GeneratorError>(GeneratorError::ModuleNotAList) <==> exists|i: int|
            0 <= i < attributes@.len() && is_module(#[trigger] attributes@[i])
                && attributes@[i].list is None,
        r matches Ok(k) ==> k < attributes@.len() && is_module(attributes@[k as int])
            && attributes@[k as int].list is Some,
        (forall|i: int| 0 <= i < attributes@.len() ==> !is_module(#[trigger] attributes@[i]))
            ==> r == Err::<usize, GeneratorError>(GeneratorError::ModuleMissing),
{
    let mut marks: Vec<Mark> = Vec::new();
    let mut i: usize = 0;
    while i < attributes.len()
        invariant
            i <= attributes@.len(),
            marks@.len() == i,
            forall|j: int| 0 <= j < i ==> may_mean(attributes@[j], #[trigger] marks@[j]),
        decreases attributes@.len() - i,
    {
        marks.push(classify(&attributes[i]));
        i += 1;
    }
    assert(possible_marks(attributes@, marks@));
    let r = choose_module(&marks);
    proof {
        if exists|i: int|
            0 <= i < attributes@.len() && is_module(#[trigger] attributes@[i])
                && attributes@[i].list is None {
            let i = choose|i: int|
                0 <= i < attributes@.len() && is_module(#[trigger] attributes@[i])
                    && attributes@[i].list is None;
            assert(may_mean(attributes@[i], marks@[i]));
            assert(marks@[i] == Mark::NotAList);
        }
        if r == Err::<usize, GeneratorError>(GeneratorError::ModuleNotAList) {
            let i = choose|i: int| 0 <= i < marks@.len() && #[trigger] marks@[i] == Mark::NotAList;
            assert(may_mean(attributes@[i], marks@[i]));
            assert(is_module(attributes@[i]) && attributes@[i].list is None);
        }
        if let Ok(k) = r {
            assert(may_mean(attributes@[k as int], marks@[k as int]));
        }
        if forall|i: int| 0 <= i < attributes@.len() ==> !is_module(#[trigger] attributes@[i]) {
            assert forall|i: int| 0 <= i < marks@.len() implies #[trigger] marks@[i]
                == Mark::Other by {
                assert(may_mean(attributes@[i], marks@[i]));
                assert(!is_module(attributes@[i]));
            }
        }
    }
    r
}

/// `text` with every occurrence of the character `from` replaced by `to`.
pub open spec fn replaced(text: Seq<char>, from: char, to: Seq<char>) -> Seq<char>
    decreases text.len(),
{
    if text.len() == 0 {
        Seq::empty()
    } else {
        replaced(text.drop_last(), from, to) + if text.last() == from {
            to
        } else {
            seq![text.last()]
        }
    }
}

/// The decimal digit for `d`.
pub open spec fn digit(d: nat) -> char
    recommends
        d < 10,
{
    seq!['0', '1', '2', '3', '4', '5', '6', '7', '8', '9'][d as int]
}

/// The number `n` in decimal notation, without leading zeros.
pub open spec fn decimal(n: nat) -> Seq<char>
    decreases n,
{
    if n < 10 {
        seq![digit(n)]
    } else {
        decimal(n / 10).push(digit(n % 10))
    }
}

/// The name of the library that belongs to the macro package `package`:
/// the package name without its ending `-macro`, with `_` for each `-`.
/// A package whose name does not end so has none.
pub open spec fn library_name_spec(package: Seq<char>) -> Option<Seq<char>> {
    if "-macro"@.is_suffix_of(package) {
        Some(replaced(package.subrange(0, package.len() - "-macro"@.len()), '-', "_"@))
    } else {
        None
    }
}

/// Calls `str::strip_suffix`: where `text` ends with `suffix`, the part of
/// `text` before it; otherwise `None`.
#[verifier::external_body]
fn strip_suffix<'a>(text: &'a str, suffix: &str) -> (r: Option<&'a str>)
    ensures
        match r {
            Some(stem) => text@ == stem@ + suffix@,
            None => !suffix@.is_suffix_of(text@),
        },
{
    text.strip_suffix(suffix)
}

/// Calls `str::replace` with a character as the pattern: every occurrence of
/// `from` in `text` gives way to `to`, and nothing else changes.
#[verifier::external_body]
fn replace_char(text: &str, from: char, to: &str) -> (r: String)
    ensures
        r@ == replaced(text@, from, to@),
{
    text.replace(from, to)
}

/// Calls `ToString::to_string` on a `usize`, which writes the number in
/// decimal notation.
#[verifier::external_body]
fn decimal_string(n: usize) -> (r: String)
    ensures
        r@ == decimal(n as nat),
{
    n.to_string()
}

/// The name of the library that the code generated by the macro package
/// `package` refers to.
pub fn library_name(package: &str) -> (r: Option<String>)
    ensures
        match library_name_spec(package@) {
            Some(name) => r matches Some(s) && s@ == name,
            None => r is None,
        },
{
    match strip_suffix(package, "-macro") {
        None => None,
        Some(stem) => {
            proof {
                let suffix = "-macro"@;
                assert(package@.subrange(0, package@.len() - suffix.len()) =~= stem@);
                assert(package@.subrange(package@.len() - suffix.len(), package@.len() as int)
                    =~= suffix);
            }
            Some(replace_char(stem, '-', "_"))
        },
    }
}

/// The name of the view type generated for the record type `record`.
pub fn view_type_name(record: &str) -> (r: String)
    ensures
        r@ == record@ + "Ref"@,
{
    record.to_owned().concat("Ref")
}

/// The name of the selector macro generated for the record type `record`.
pub fn selector_macro_name(record: &str) -> (r: String)
    ensures
        r@ == "_"@ + record@,
{
    "_".to_owned().concat(record)
}

/// The name of the type parameter that stands for the target of the field
/// `field`.
pub fn target_parameter_name(field: &str) -> (r: String)
    ensures
        r@ == field@ + "_target"@,
{
    field.to_owned().concat("_target")
}

/// The name of the method that extracts the field `field`.
pub fn extract_method_name(field: &str) -> (r: String)
    ensures
        r@ == "extract_"@ + field@,
{
    "extract_".to_owned().concat(field)
}

/// The name of the type-level number of field `index`.
pub fn index_type_name(index: usize) -> (r: String)
    ensures
        r@ == "N"@ + decimal(index as nat),
{
    let digits = decimal_string(index);
    "N".to_owned().concat(digits.as_str())
}

/// The name of the macro variable that holds the state of field `index`.
pub fn slot_name(index: usize) -> (r: String)
    ensures
        r@ == "t"@ + decimal(index as nat),
{
    let digits = decimal_string(index);
    "t".to_owned().concat(digits.as_str())
}

} // verus!
