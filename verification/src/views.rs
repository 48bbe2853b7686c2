//! Aggregated views: the symbols of each file, and the files of each
//! directory.

use vstd::prelude::*;
use vstd::string::*;
use crate::model::{Node, NodeView};
use crate::query::{first_n, node_of};
use crate::store::{FileRowView, Store, SymbolRowView};
use crate::text::{
    distinct_in_order, distinct_strings, replace_char, replace_in, same_text, starts_with,
    to_chars,
};
use crate::walker::{
    directory_of, extension_allowed, extension_of, file_extension, file_name_of, split_path,
};

verus! {

/// The most file names that the structure view lists for one directory.
pub const FILE_LIST_LIMIT: usize = 50;

/// A path is in scope: no scope is given, or it is empty, or the path
/// starts with it, the scope's backslashes read as slashes.
pub open spec fn in_scope(path: Seq<char>, scope: Option<Seq<char>>) -> bool {
    match scope {
        Some(s) => s.len() == 0 || replace_char(s, '\\', '/').is_prefix_of(path),
        None => true,
    }
}

/// The node by which the map reports a symbol row: with its signature.
pub open spec fn map_node(row: SymbolRowView) -> NodeView {
    NodeView { signature: row.signature, ..node_of(row) }
}

/// The file paths of the symbol rows in scope, in row order.
pub open spec fn scoped_paths(symbols: Seq<SymbolRowView>, scope: Option<Seq<char>>) -> Seq<
    Seq<char>,
>
    decreases symbols.len(),
{
    if symbols.len() == 0 {
        Seq::empty()
    } else if in_scope(symbols.last().file_path, scope) {
        scoped_paths(symbols.drop_last(), scope).push(symbols.last().file_path)
    } else {
        scoped_paths(symbols.drop_last(), scope)
    }
}

/// The nodes of the symbol rows of one file, in row order.
pub open spec fn nodes_in(symbols: Seq<SymbolRowView>, path: Seq<char>) -> Seq<NodeView>
    decreases symbols.len(),
{
    if symbols.len() == 0 {
        Seq::empty()
    } else if symbols.last().file_path == path {
        nodes_in(symbols.drop_last(), path).push(map_node(symbols.last()))
    } else {
        nodes_in(symbols.drop_last(), path)
    }
}

/// The number of file rows in scope.
pub open spec fn files_in_scope(files: Seq<FileRowView>, scope: Option<Seq<char>>) -> nat
    decreases files.len(),
{
    if files.len() == 0 {
        0
    } else {
        files_in_scope(files.drop_last(), scope) + (if in_scope(files.last().file_path, scope) {
            1nat
        } else {
            0nat
        })
    }
}

/// The symbols of one file.
#[derive(Clone, Debug, PartialEq, Eq)]
pub struct FileSymbols {
    pub file_path: String,
    pub symbols: Vec<Node>,
}

/// What a `FileSymbols` holds, as mathematical values.
pub struct FileSymbolsView {
    pub file_path: Seq<char>,
    pub symbols: Seq<NodeView>,
}

impl View for FileSymbols {
    type V = FileSymbolsView;

    open spec fn view(&self) -> FileSymbolsView {
        FileSymbolsView { file_path: self.file_path@, symbols: self.symbols.deep_view() }
    }
}

impl DeepView for FileSymbols {
    type V = FileSymbolsView;

    open spec fn deep_view(&self) -> FileSymbolsView {
        self@
    }
}

/// The totals of a map.
#[derive(Clone, Copy, Debug, PartialEq, Eq, Structural)]
pub struct Stats {
    pub total_files: usize,
    pub total_symbols: usize,
}

/// The map of an indexed state.
#[derive(Clone, Debug, PartialEq, Eq)]
pub struct MapResult {
    pub statistics: Stats,
    pub structure: Vec<FileSymbols>,
}

/// The map of the files in scope: for each file that has symbols, in the
/// order in which the files first occur among the symbol rows, its symbols
/// in row order.
pub open spec fn map_of(symbols: Seq<SymbolRowView>, scope: Option<Seq<char>>) -> Seq<
    FileSymbolsView,
> {
    let paths = distinct_in_order(scoped_paths(symbols, scope));
    Seq::new(
        paths.len(),
        |i: int| FileSymbolsView { file_path: paths[i], symbols: nodes_in(symbols, paths[i]) },
    )
}

/// Whether a path is in scope.
fn path_in_scope(path: &str, scope: &Option<Vec<char>>) -> (r: bool)
    ensures
        r == (match scope {
            Some(s) => s@.len() == 0 || s@.is_prefix_of(path@),
            None => true,
        }),
{
    match scope {
        Some(s) => {
            if s.len() == 0 {
                true
            } else {
                let p = to_chars(path);
                starts_with(&p, s)
            }
        },
        None => true,
    }
}

/// The map view: the symbols of each file in scope, and the numbers of file
/// rows and symbol rows in scope.
pub fn run_map(store: &Store, scope: Option<&str>) -> (r: MapResult)
    ensures
        r.structure.deep_view() == map_of(store@.symbols, scope.deep_view()),
        r.statistics.total_files == files_in_scope(store@.files, scope.deep_view()),
        r.statistics.total_symbols == scoped_paths(store@.symbols, scope.deep_view()).len(),
{
    let ghost symbols = store@.symbols;
    let ghost files = store@.files;
    let ghost sc = scope.deep_view();
    let prefix: Option<Vec<char>> = match scope {
        Some(s) => {
            let normalized = replace_in(s, '\\', '/');
            let chars = to_chars(normalized.as_str());
            proof {
                if s@.len() == 0 {
                    assert(chars@.len() == 0);
                }
            }
            Some(chars)
        },
        None => None,
    };
    assert(forall|p: Seq<char>|
        in_scope(p, sc) == (match prefix {
            Some(s) => s@.len() == 0 || s@.is_prefix_of(p),
            None => true,
        }));
    let mut total_files: usize = 0;
    let mut f: usize = 0;
    assert(files.take(0) =~= Seq::<FileRowView>::empty());
    while f < store.files.len()
        invariant
            f <= store.files.len(),
            files == store@.files,
            forall|p: Seq<char>|
                in_scope(p, sc) == (match prefix {
                    Some(s) => s@.len() == 0 || s@.is_prefix_of(p),
                    None => true,
                }),
            total_files == files_in_scope(files.take(f as int), sc),
            total_files <= f,
        decreases store.files.len() - f,
    {
        proof {
            assert(files.take(f + 1).drop_last() =~= files.take(f as int));
            assert(files.take(f + 1).last() == store.files@[f as int]@);
        }
        if path_in_scope(store.files[f].file_path.as_str(), &prefix) {
            total_files += 1;
        }
        f += 1;
    }
    assert(files.take(store.files.len() as int) =~= files);
    let mut paths: Vec<String> = Vec::new();
    let mut i: usize = 0;
    assert(symbols.take(0) =~= Seq::<SymbolRowView>::empty());
    while i < store.symbols.len()
        invariant
            i <= store.symbols.len(),
            symbols == store@.symbols,
            forall|p: Seq<char>|
                in_scope(p, sc) == (match prefix {
                    Some(s) => s@.len() == 0 || s@.is_prefix_of(p),
                    None => true,
                }),
            paths.deep_view() == scoped_paths(symbols.take(i as int), sc),
        decreases store.symbols.len() - i,
    {
        let ghost before = paths.deep_view();
        proof {
            assert(symbols.take(i + 1).drop_last() =~= symbols.take(i as int));
            assert(symbols.take(i + 1).last() == store.symbols@[i as int]@);
        }
        if path_in_scope(store.symbols[i].file_path.as_str(), &prefix) {
            paths.push(store.symbols[i].file_path.clone());
            assert(paths.deep_view() =~= before.push(store.symbols@[i as int]@.file_path));
        }
        i += 1;
    }
    assert(symbols.take(store.symbols.len() as int) =~= symbols);
    let total_symbols = paths.len();
    let distinct = distinct_strings(&paths);
    let ghost keys = distinct.deep_view();
    let mut structure: Vec<FileSymbols> = Vec::new();
    let mut d: usize = 0;
    while d < distinct.len()
        invariant
            d <= distinct.len(),
            symbols == store@.symbols,
            keys == distinct.deep_view(),
            structure.len() == d,
            forall|k: int|
                0 <= k < d ==> (#[trigger] structure.deep_view()[k]) == (FileSymbolsView {
                    file_path: keys[k],
                    symbols: nodes_in(symbols, keys[k]),
                }),
        decreases distinct.len() - d,
    {
        let path = &distinct[d];
        let mut nodes: Vec<Node> = Vec::new();
        let mut j: usize = 0;
        assert(symbols.take(0) =~= Seq::<SymbolRowView>::empty());
        while j < store.symbols.len()
            invariant
                j <= store.symbols.len(),
                symbols == store@.symbols,
                nodes.deep_view() == nodes_in(symbols.take(j as int), path@),
            decreases store.symbols.len() - j,
        {
            let row = &store.symbols[j];
            let ghost before = nodes.deep_view();
            proof {
                assert(symbols.take(j + 1).drop_last() =~= symbols.take(j as int));
                assert(symbols.take(j + 1).last() == row@);
            }
            if same_text(row.file_path.as_str(), path.as_str()) {
                let node = Node {
                    id: row.canonical_id.clone(),
                    node_type: row.kind,
                    name: row.name.clone(),
                    qualified_name: row.qualified_name.clone(),
                    file_path: row.file_path.clone(),
                    line_start: row.line_start,
                    line_end: row.line_end,
                    signature: row.signature.clone(),
                };
                assert(node@ == map_node(row@));
                nodes.push(node);
                assert(nodes.deep_view() =~= before.push(map_node(row@)));
            }
            j += 1;
        }
        assert(symbols.take(store.symbols.len() as int) =~= symbols);
        let ghost before = structure.deep_view();
        let entry = FileSymbols { file_path: path.clone(), symbols: nodes };
        assert(entry@ == (FileSymbolsView {
            file_path: keys[d as int],
            symbols: nodes_in(symbols, keys[d as int]),
        }));
        structure.push(entry);
        assert(structure.deep_view() =~= before.push(
            FileSymbolsView {
                file_path: keys[d as int],
                symbols: nodes_in(symbols, keys[d as int]),
            },
        ));
        d += 1;
    }
    assert(structure.deep_view() =~= map_of(symbols, sc));
    MapResult { statistics: Stats { total_files, total_symbols }, structure }
}

/// The paths whose extension is wanted, in order.
pub open spec fn wanted_paths(paths: Seq<Seq<char>>, allowed: Seq<Seq<char>>) -> Seq<Seq<char>>
    decreases paths.len(),
{
    if paths.len() == 0 {
        paths
    } else if allowed.len() == 0 || allowed.contains(extension_of(paths.last())) {
        wanted_paths(paths.drop_last(), allowed).push(paths.last())
    } else {
        wanted_paths(paths.drop_last(), allowed)
    }
}

/// The directory of each path.
pub open spec fn directories_of(paths: Seq<Seq<char>>) -> Seq<Seq<char>> {
    Seq::new(paths.len(), |i: int| directory_of(paths[i]))
}

/// The file names of the paths in one directory, in order.
pub open spec fn names_in(paths: Seq<Seq<char>>, dir: Seq<char>) -> Seq<Seq<char>>
    decreases paths.len(),
{
    if paths.len() == 0 {
        paths
    } else if directory_of(paths.last()) == dir {
        names_in(paths.drop_last(), dir).push(file_name_of(paths.last()))
    } else {
        names_in(paths.drop_last(), dir)
    }
}

/// The files of one directory: how many there are, and the names of the
/// first of them where names are asked for.
#[derive(Clone, Debug, PartialEq, Eq)]
pub struct DirInfo {
    pub dir: String,
    pub file_count: usize,
    pub files: Vec<String>,
}

/// What a `DirInfo` holds, as mathematical values.
pub struct DirInfoView {
    pub dir: Seq<char>,
    pub file_count: usize,
    pub files: Seq<Seq<char>>,
}

impl View for DirInfo {
    type V = DirInfoView;

    open spec fn view(&self) -> DirInfoView {
        DirInfoView { dir: self.dir@, file_count: self.file_count, files: self.files.deep_view() }
    }
}

impl DeepView for DirInfo {
    type V = DirInfoView;

    open spec fn deep_view(&self) -> DirInfoView {
        self@
    }
}

/// The structure of a project.
#[derive(Clone, Debug, PartialEq, Eq)]
pub struct StructureResult {
    pub total_files: usize,
    pub structure: Vec<DirInfo>,
}

/// The entry of one directory.
pub open spec fn dir_info_of(paths: Seq<Seq<char>>, dir: Seq<char>, include_files: bool)
    -> DirInfoView {
    DirInfoView {
        dir: dir,
        file_count: names_in(paths, dir).len() as usize,
        files: if include_files {
            first_n(names_in(paths, dir), FILE_LIST_LIMIT as nat)
        } else {
            Seq::empty()
        },
    }
}

/// The structure of the wanted paths: one entry for each directory, in the
/// order in which the directories first occur.
pub open spec fn structure_of(paths: Seq<Seq<char>>, include_files: bool) -> Seq<DirInfoView> {
    let dirs = distinct_in_order(directories_of(paths));
    Seq::new(dirs.len(), |i: int| dir_info_of(paths, dirs[i], include_files))
}

/// The structure view over the reported paths of the files that were
/// found: the files of each directory are counted, and listed up to the
/// first fifty where `detail` is `full`.
pub fn run_structure(paths: &Vec<String>, allowed: &Vec<String>, detail: &str) -> (r:
    StructureResult)
    ensures
        r.total_files == wanted_paths(paths.deep_view(), allowed.deep_view()).len(),
        r.structure.deep_view() == structure_of(
            wanted_paths(paths.deep_view(), allowed.deep_view()),
            detail@ == "full"@,
        ),
{
    let ghost all = paths.deep_view();
    let ghost exts = allowed.deep_view();
    let include_files = same_text(detail, "full");
    let mut dirs: Vec<String> = Vec::new();
    let mut names: Vec<String> = Vec::new();
    let ghost mut wanted: Seq<Seq<char>> = Seq::empty();
    let mut i: usize = 0;
    assert(all.take(0) =~= Seq::<Seq<char>>::empty());
    while i < paths.len()
        invariant
            i <= paths.len(),
            all == paths.deep_view(),
            exts == allowed.deep_view(),
            wanted == wanted_paths(all.take(i as int), exts),
            dirs.len() == wanted.len(),
            names.len() == wanted.len(),
            dirs.deep_view() == directories_of(wanted),
            forall|k: int|
                0 <= k < wanted.len() ==> #[trigger] names.deep_view()[k] == file_name_of(
                    wanted[k],
                ),
        decreases paths.len() - i,
    {
        let path = &paths[i];
        proof {
            assert(all.take(i + 1).drop_last() =~= all.take(i as int));
            assert(all.take(i + 1).last() == path@);
        }
        let ext = file_extension(path.as_str());
        if extension_allowed(ext.as_str(), allowed) {
            let ghost old_dirs = dirs.deep_view();
            let ghost old_names = names.deep_view();
            let (dir, name) = split_path(path.as_str());
            dirs.push(dir);
            names.push(name);
            proof {
                let grown = wanted.push(path@);
                assert(dirs.deep_view() =~= old_dirs.push(directory_of(path@)));
                assert(names.deep_view() =~= old_names.push(file_name_of(path@)));
                assert(dirs.deep_view() =~= directories_of(grown));
                wanted = grown;
            }
        }
        i += 1;
    }
    assert(all.take(paths.len() as int) =~= all);
    let distinct = distinct_strings(&dirs);
    let ghost keys = distinct.deep_view();
    let mut structure: Vec<DirInfo> = Vec::new();
    let mut d: usize = 0;
    while d < distinct.len()
        invariant
            d <= distinct.len(),
            keys == distinct.deep_view(),
            dirs.len() == wanted.len(),
            names.len() == wanted.len(),
            dirs.deep_view() == directories_of(wanted),
            forall|k: int|
                0 <= k < wanted.len() ==> #[trigger] names.deep_view()[k] == file_name_of(
                    wanted[k],
                ),
            structure.len() == d,
            forall|k: int|
                0 <= k < d ==> (#[trigger] structure.deep_view()[k]) == dir_info_of(
                    wanted,
                    keys[k],
                    include_files,
                ),
        decreases distinct.len() - d,
    {
        let dir = &distinct[d];
        let mut count: usize = 0;
        let mut files: Vec<String> = Vec::new();
        let mut j: usize = 0;
        assert(wanted.take(0) =~= Seq::<Seq<char>>::empty());
        while j < dirs.len()
            invariant
                j <= dirs.len(),
                dirs.len() == wanted.len(),
                names.len() == wanted.len(),
                dirs.deep_view() == directories_of(wanted),
                forall|k: int|
                    0 <= k < wanted.len() ==> #[trigger] names.deep_view()[k] == file_name_of(
                        wanted[k],
                    ),
                count == names_in(wanted.take(j as int), dir@).len(),
                count <= j,
                files.deep_view() == (if include_files {
                    first_n(names_in(wanted.take(j as int), dir@), FILE_LIST_LIMIT as nat)
                } else {
                    Seq::empty()
                }),
            decreases dirs.len() - j,
        {
            let ghost before = files.deep_view();
            let ghost so_far = names_in(wanted.take(j as int), dir@);
            proof {
                assert(wanted.take(j + 1).drop_last() =~= wanted.take(j as int));
                assert(wanted.take(j + 1).last() == wanted[j as int]);
                assert(dirs.deep_view()[j as int] == directory_of(wanted[j as int]));
                assert(names.deep_view()[j as int] == file_name_of(wanted[j as int]));
            }
            if same_text(dirs[j].as_str(), dir.as_str()) {
                count += 1;
                if include_files && files.len() < FILE_LIST_LIMIT {
                    files.push(names[j].clone());
                    proof {
                        let grown = so_far.push(file_name_of(wanted[j as int]));
                        assert(files.deep_view() =~= before.push(file_name_of(wanted[j as int])));
                        assert(files.deep_view() =~= first_n(grown, FILE_LIST_LIMIT as nat));
                    }
                } else {
                    proof {
                        let grown = so_far.push(file_name_of(wanted[j as int]));
                        if include_files {
                            assert(before =~= first_n(grown, FILE_LIST_LIMIT as nat));
                        }
                    }
                }
            }
            j += 1;
        }
        assert(wanted.take(dirs.len() as int) =~= wanted);
        let ghost before = structure.deep_view();
        let entry = DirInfo { dir: dir.clone(), file_count: count, files };
        assert(entry@ == dir_info_of(wanted, keys[d as int], include_files));
        structure.push(entry);
        assert(structure.deep_view() =~= before.push(
            dir_info_of(wanted, keys[d as int], include_files),
        ));
        d += 1;
    }
    assert(structure.deep_view() =~= structure_of(wanted, include_files));
    StructureResult { total_files: dirs.len(), structure }
}

} // verus!
