//! Which executables are extensions.

use vstd::prelude::*;
use vstd::string::*;

use crate::string_map;
use crate::string_map::StringMap;
use crate::text;

verus! {

/// What the name of an executable begins with if it is an extension.
pub open spec fn extension_prefix() -> Seq<char> {
    "whdr-ext-"@
}

/// The identifier under which an executable is an extension: what follows the
/// prefix of its name, where that is something.
pub open spec fn candidate_of(file_name: Seq<char>) -> Option<Seq<char>> {
    if text::begins(file_name, extension_prefix()) && file_name.len() > extension_prefix().len() {
        Some(file_name.skip(extension_prefix().len() as int))
    } else {
        None
    }
}

/// The identifier under which an executable is an extension.
pub fn candidate_id(file_name: &str) -> (id: Option<String>)
    ensures
        text::optional(id) == candidate_of(file_name@),
{
    match text::strip_prefix(file_name, "whdr-ext-") {
        Some(id) => {
            if id.as_str().is_empty() {
                None
            } else {
                Some(id)
            }
        },
        None => None,
    }
}

/// Whether a path leads to an executable: a file that somebody may execute.
pub fn is_executable(is_file: bool, mode: u32) -> (yes: bool)
    ensures
        yes == (is_file && mode & 0o111 != 0),
{
    is_file && mode & 0o111 != 0
}

/// A file in a directory of executables.
#[derive(Debug)]
pub struct FoundFile {
    pub name: String,
    pub path: String,
    pub executable: bool,
}

/// The extensions among files, by their identifiers; of two files with one
/// identifier the first counts.
pub open spec fn extensions_among(files: Seq<FoundFile>) -> Map<Seq<char>, Seq<char>>
    decreases files.len(),
{
    if files.len() == 0 {
        Map::empty()
    } else {
        let before = extensions_among(files.drop_last());
        match candidate_of(files.last().name@) {
            Some(id) => if files.last().executable && !before.contains_key(id) {
                before.insert(id, files.last().path@)
            } else {
                before
            },
            None => before,
        }
    }
}

/// Finds the extensions among files, which come in the order of the directories
/// that are searched.
pub fn discover_extensions(files: &[FoundFile]) -> (found: StringMap<String>)
    ensures
        string_map::text_map(found@) == extensions_among(files@),
{
    let mut found: StringMap<String> = StringMap::new();
    let mut i: usize = 0;
    assert(string_map::text_map(found@) =~= extensions_among(files@.take(0)));
    while i < files.len()
        invariant
            i <= files@.len(),
            string_map::text_map(found@) == extensions_among(files@.take(i as int)),
        decreases files@.len() - i,
    {
        let ghost before = string_map::text_map(found@);
        assert(files@.take(i as int + 1).drop_last() =~= files@.take(i as int));
        match candidate_id(files[i].name.as_str()) {
            Some(id) => {
                if files[i].executable && !found.contains_key(id.as_str()) {
                    assert(!before.contains_key(id@));
                    string_map::put_text(&mut found, id.as_str(), files[i].path.as_str());
                } else {
                    assert(files@[i as int].executable ==> before.contains_key(id@));
                }
            },
            None => {},
        }
        i += 1;
    }
    assert(files@.take(i as int) =~= files@);
    found
}

/// What is found stays found, whatever stands in directories that are searched
/// later.
pub proof fn first_found_extension_counts(
    first: Seq<FoundFile>,
    later: Seq<FoundFile>,
    id: Seq<char>,
)
    requires
        extensions_among(first).contains_key(id),
    ensures
        extensions_among(first + later).contains_key(id),
        extensions_among(first + later)[id] == extensions_among(first)[id],
    decreases later.len(),
{
    if later.len() == 0 {
        assert(first + later =~= first);
    } else {
        first_found_extension_counts(first, later.drop_last(), id);
        assert((first + later).drop_last() =~= first + later.drop_last());
    }
}

/// An executable is an extension under what follows `whdr-ext-` in its name, where
/// that is something; nothing else is an extension.
pub proof fn extensions_are_named(id: Seq<char>, name: Seq<char>)
    ensures
        id.len() > 0 ==> candidate_of("whdr-ext-"@ + id) == Some(id),
        candidate_of("whdr-ext-"@) is None,
        candidate_of(name) is Some ==> name == "whdr-ext-"@ + candidate_of(name)->Some_0
            && candidate_of(name)->Some_0.len() > 0,
{
    let whole = "whdr-ext-"@ + id;
    let n = "whdr-ext-"@.len() as int;
    assert(whole.take(n) =~= "whdr-ext-"@);
    assert(whole.skip(n) =~= id);
    if candidate_of(name) is Some {
        assert(name =~= name.take(n) + name.skip(n));
    }
}

/// Which file an extension is: the first executable with its name. An extension is
/// found if and only if there is one.
pub proof fn the_first_executable_is_found(files: Seq<FoundFile>, id: Seq<char>, i: int)
    requires
        id.len() > 0,
        0 <= i < files.len(),
        files[i].executable,
        files[i].name@ == "whdr-ext-"@ + id,
        forall|j: int|
            0 <= j < i ==> !((#[trigger] files[j]).executable && files[j].name@ == "whdr-ext-"@
                + id),
    ensures
        extensions_among(files).contains_key(id),
        extensions_among(files)[id] == files[i].path@,
    decreases files.len(),
{
    let head = files.drop_last();
    if i < head.len() {
        assert(forall|j: int| 0 <= j < head.len() ==> head[j] == files[j]);
        the_first_executable_is_found(head, id, i);
    } else {
        extensions_are_named(id, files[i].name@);
        lemma_not_found(head, id);
    }
}

proof fn lemma_not_found(files: Seq<FoundFile>, id: Seq<char>)
    requires
        id.len() > 0,
        forall|j: int|
            0 <= j < files.len() ==> !((#[trigger] files[j]).executable && files[j].name@
                == "whdr-ext-"@ + id),
    ensures
        !extensions_among(files).contains_key(id),
    decreases files.len(),
{
    if files.len() > 0 {
        let head = files.drop_last();
        assert(forall|j: int| 0 <= j < head.len() ==> head[j] == files[j]);
        lemma_not_found(head, id);
        extensions_are_named(id, files.last().name@);
        assert(!(files[files.len() - 1].executable && files[files.len() - 1].name@ == "whdr-ext-"@
            + id));
    }
}

/// What no executable is named after is not found.
pub proof fn nothing_else_is_found(files: Seq<FoundFile>, id: Seq<char>)
    requires
        id.len() == 0 || forall|j: int|
            0 <= j < files.len() ==> !((#[trigger] files[j]).executable && files[j].name@
                == "whdr-ext-"@ + id),
    ensures
        !extensions_among(files).contains_key(id),
    decreases files.len(),
{
    if id.len() > 0 {
        lemma_not_found(files, id);
    } else if files.len() > 0 {
        nothing_else_is_found(files.drop_last(), id);
        extensions_are_named(id, files.last().name@);
    }
}

} // verus!
