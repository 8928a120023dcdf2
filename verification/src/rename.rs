//! Renaming a document: where it moves, how the references that cross the
//! move are rewritten, and the order the edits of one document are applied
//! in.
use vstd::prelude::*;
use crate::order::{permuted, sort_by_keys, sorted_permutation};
use crate::paths::{
    components, current_component, extension_of, file_name, has_root, name_extension, normalize, normalized,
    parent_component, path_components, relative_path, relative_path_spec, resolve_relative, resolved_relative,
    root_component, views,
};
use crate::query::{PathRenameInput, RenameError};
use crate::text::{chars_equal, chars_of, extend_chars, str_eq, string_from_chars};

verus! {

/// The extension of a path's file name, if any.
pub open spec fn path_extension(s: Seq<char>) -> Option<Seq<char>> {
    match file_name(s) {
        Some(name) => name_extension(name),
        None => None,
    }
}

/// The extension of workspace documents.
pub open spec fn document_extension() -> Seq<char> {
    seq!['p', 'l', 'u', 'm', 'b']
}

/// Where a file stem typed by the user names: one relative component whose
/// extension, if it has one, is the document extension; the extension is
/// added when missing.
pub open spec fn stem_file_name(requested: Seq<char>) -> Option<Seq<char>> {
    let cs = path_components(requested);
    if has_root(requested) || file_name(requested) is None || cs.len() != 1 {
        None
    } else {
        match name_extension(cs[0]) {
            Some(e) => if e == document_extension() {
                Some(cs[0])
            } else {
                None
            },
            None => Some(cs[0] + seq!['.'] + document_extension()),
        }
    }
}

/// Where renaming the document at `old` to what the user typed moves it:
/// a typed path is resolved against the document's directory, a typed file
/// stem names a sibling.  The destination must be another document path.
pub open spec fn rename_destination_spec(old: Seq<char>, requested: Seq<char>, input: PathRenameInput) -> Result<
    Seq<char>,
    RenameError,
> {
    let o = normalized(old);
    let candidate = match input {
        PathRenameInput::Path => Some(resolved_relative(o, requested)),
        PathRenameInput::FileStem => match stem_file_name(requested) {
            Some(name) => Some(resolved_relative(o, name)),
            None => None,
        },
    };
    match candidate {
        None => Err(RenameError::InvalidPath),
        Some(n) => if path_extension(n) != Some(document_extension()) || n == o {
            Err(RenameError::InvalidPath)
        } else {
            Ok(n)
        },
    }
}

fn is_plumb_extension(path: &str) -> (ok: bool)
    ensures
        ok == (path_extension(path@) == Some(document_extension())),
{
    match extension_of(path) {
        Some(e) => {
            let ok = chars_equal(&e, &vec!['p', 'l', 'u', 'm', 'b']);
            proof {
                if ok {
                    assert(e@ =~= document_extension());
                }
            }
            ok
        },
        None => false,
    }
}

fn stem_file_name_exec(requested: &str) -> (name: Option<String>)
    ensures
        match stem_file_name(requested@) {
            Some(n) => name matches Some(s) && s@ == n,
            None => name is None,
        },
{
    let chars = chars_of(requested);
    if chars.len() > 0 && chars[0] == '/' {
        return None;
    }
    let cs = components(requested);
    if cs.len() != 1 {
        return None;
    }
    let c = &cs[0];
    assert(views(cs@)[0] == c@);
    let special = (c.len() == 1 && (c[0] == '/' || c[0] == '.')) || (c.len() == 2 && c[0] == '.' && c[1] == '.');
    proof {
        if c@ == root_component() || c@ == current_component() || c@ == parent_component() {
            assert(special);
        }
        if special {
            if c.len() == 1 && c[0] == '/' {
                assert(c@ =~= root_component());
            } else if c.len() == 1 {
                assert(c@ =~= current_component());
            } else {
                assert(c@ =~= parent_component());
            }
        }
    }
    if special {
        return None;
    }
    match extension_of(requested) {
        Some(e) => {
            let ok = chars_equal(&e, &vec!['p', 'l', 'u', 'm', 'b']);
            proof {
                if ok {
                    assert(e@ =~= document_extension());
                }
            }
            if ok {
                Some(string_from_chars(c))
            } else {
                None
            }
        },
        None => {
            let mut name = c.clone();
            let suffix: Vec<char> = vec!['.', 'p', 'l', 'u', 'm', 'b'];
            extend_chars(&mut name, &suffix);
            assert(name@ =~= c@ + seq!['.'] + document_extension());
            Some(string_from_chars(&name))
        },
    }
}

/// A path among the workspace's documents.
pub open spec fn path_known(known: Seq<String>, path: Seq<char>) -> bool {
    exists|k: int| 0 <= k < known.len() && (#[trigger] known[k])@ == path
}

fn path_known_exec(known: &Vec<String>, path: &str) -> (found: bool)
    ensures
        found == path_known(known@, path@),
{
    let mut k: usize = 0;
    while k < known.len()
        invariant
            k <= known.len(),
            forall|j: int| 0 <= j < k ==> (#[trigger] known@[j])@ != path@,
        decreases known.len() - k,
    {
        if str_eq(known[k].as_str(), path) {
            return true;
        }
        k = k + 1;
    }
    false
}

/// Whether a rename of the document at `old` to `destination` (see
/// `rename_destination`) may go ahead, given the workspace's document
/// paths (`known`, normalised) and whether a file is already at the
/// destination: a destination that is a document or a file is refused
/// (`TargetExists`), then a source that is not a document of the
/// workspace (`NotRenameable`).
pub fn rename_checks(old: &str, destination: &str, known: &Vec<String>, destination_on_disk: bool) -> (result: Result<(), RenameError>)
    ensures
        path_known(known@, destination@) || destination_on_disk ==> result == Err::<(), RenameError>(RenameError::TargetExists),
        !(path_known(known@, destination@) || destination_on_disk) && !path_known(known@, normalized(old@)) ==> result == Err::<
            (),
            RenameError,
        >(RenameError::NotRenameable),
        !(path_known(known@, destination@) || destination_on_disk) && path_known(known@, normalized(old@)) ==> result == Ok::<
            (),
            RenameError,
        >(()),
{
    if path_known_exec(known, destination) || destination_on_disk {
        return Err(RenameError::TargetExists);
    }
    let o = normalize(old);
    if !path_known_exec(known, o.as_str()) {
        return Err(RenameError::NotRenameable);
    }
    Ok(())
}

/// Where a rename moves the document at `old` (see `rename_destination_spec`).
pub fn rename_destination(old: &str, requested: &str, input: PathRenameInput) -> (result: Result<String, RenameError>)
    ensures
        match rename_destination_spec(old@, requested@, input) {
            Ok(n) => result matches Ok(s) && s@ == n,
            Err(e) => result == Err::<String, RenameError>(e),
        },
{
    let o = normalize(old);
    let candidate = match input {
        PathRenameInput::Path => Some(resolve_relative(o.as_str(), requested)),
        PathRenameInput::FileStem => match stem_file_name_exec(requested) {
            Some(name) => Some(resolve_relative(o.as_str(), name.as_str())),
            None => None,
        },
    };
    match candidate {
        None => Err(RenameError::InvalidPath),
        Some(n) => {
            if !is_plumb_extension(n.as_str()) || str_eq(n.as_str(), o.as_str()) {
                Err(RenameError::InvalidPath)
            } else {
                Ok(n)
            }
        },
    }
}

/// The path text a reference from the document at `source` to the document
/// at `target` takes once `old` has moved to `new`; `None` when neither end
/// moves.
pub open spec fn moved_reference_spec(source: Seq<char>, target: Seq<char>, old: Seq<char>, new: Seq<char>) -> Option<
    Seq<char>,
> {
    if source != old && target != old {
        None
    } else {
        Some(
            relative_path_spec(
                if source == old {
                    new
                } else {
                    source
                },
                if target == old {
                    new
                } else {
                    target
                },
            ),
        )
    }
}

/// Rewrites one reference for a move (see `moved_reference_spec`).
pub fn moved_reference(source: &str, target: &str, old: &str, new: &str) -> (text: Option<String>)
    ensures
        match moved_reference_spec(source@, target@, old@, new@) {
            Some(t) => text matches Some(s) && s@ == t,
            None => text is None,
        },
{
    let source_moves = str_eq(source, old);
    let target_moves = str_eq(target, old);
    if !source_moves && !target_moves {
        return None;
    }
    let effective_source = if source_moves { new } else { source };
    let effective_target = if target_moves { new } else { target };
    relative_path(effective_source, effective_target)
}

// ---------------------------------------------------------------------------
// Edits of one document.

/// A replacement of a byte span of a document.
#[derive(Debug, PartialEq, Eq)]
pub struct TextEdit {
    pub range: std::ops::Range<usize>,
    pub new_text: String,
}

/// The sort keys of edits: their start offsets.
pub open spec fn start_keys(edits: Seq<TextEdit>) -> Seq<Seq<i128>> {
    edits.map_values(|e: TextEdit| seq![e.range.start as i128])
}

/// Whether some edit ends after the next one starts.
pub open spec fn overlapping(edits: Seq<TextEdit>) -> bool {
    exists|k: int| 0 <= k < edits.len() - 1 && #[trigger] edits[k].range.end > edits[k + 1].range.start
}

fn start_key_vecs(edits: &Vec<TextEdit>) -> (keys: Vec<Vec<i128>>)
    ensures
        keys.len() == edits.len(),
        keys@.map_values(|k: Vec<i128>| k@) == start_keys(edits@),
{
    let mut keys: Vec<Vec<i128>> = Vec::new();
    let mut i: usize = 0;
    while i < edits.len()
        invariant
            i <= edits.len(),
            keys.len() == i,
            forall|j: int| 0 <= j < i ==> #[trigger] keys@[j]@ == seq![edits@[j].range.start as i128],
        decreases edits.len() - i,
    {
        let key: Vec<i128> = vec![edits[i].range.start as i128];
        assert(key@ =~= seq![edits@[i as int].range.start as i128]);
        keys.push(key);
        i = i + 1;
    }
    assert(keys@.map_values(|k: Vec<i128>| k@) =~= start_keys(edits@));
    keys
}

/// Orders the edits of one document by start offset (equal starts keep
/// their order) and refuses them when two overlap.
pub fn order_edits(edits: Vec<TextEdit>) -> (result: Result<Vec<TextEdit>, RenameError>)
    ensures
        exists|perm: Seq<int>, sorted: Seq<TextEdit>|
            sorted_permutation(start_keys(edits@), perm) && permuted(edits@, sorted, perm) && if overlapping(sorted) {
                result == Err::<Vec<TextEdit>, RenameError>(RenameError::OverlappingEdits)
            } else {
                result matches Ok(v) && v@ == sorted
            },
{
    let ghost original = edits@;
    let keys = start_key_vecs(&edits);
    let sorted = sort_by_keys(edits, &keys);
    let mut k: usize = 0;
    while k < sorted.len()
        invariant
            original == edits@,
            exists|perm: Seq<int>| sorted_permutation(start_keys(original), perm) && permuted(original, sorted@, perm),
            forall|j: int| 0 <= j < k && j + 1 < sorted.len() ==> !(#[trigger] sorted@[j].range.end > sorted@[j + 1].range.start),
        decreases sorted.len() - k,
    {
        if k + 1 < sorted.len() && sorted[k].range.end > sorted[k + 1].range.start {
            assert(sorted@[k as int].range.end > sorted@[k + 1].range.start);
            assert(overlapping(sorted@));
            return Err(RenameError::OverlappingEdits);
        }
        k = k + 1;
    }
    Ok(sorted)
}

} // verus!
