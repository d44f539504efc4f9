//! The command surface and the repository: parsing the argument list,
//! holding the object store and refs of a clone, and planning the
//! writes that mirror them to disk.

use vstd::prelude::*;
use crate::GitError;
use crate::bytes::{bytes_eq, extend_bytes, find_last, find_last_byte, has_prefix, starts_with_bytes, sub_bytes};
use crate::hash::{hex_to_bin, parse_hex_bytes};
use crate::object::GitObjectType;
use crate::tree::{decode_tree, parse_tree_spec, TreeEntryView, TreeMode};
use crate::pack::{ingest_pack, ingest_spec, pack_count, store_extends};
use crate::refs::{parse_refs, Ref, RefsView};
use crate::store::ObjectStore;
use crate::zlib::inflate_prefix_of;
use crate::object::encode_obj_spec;

verus! {

/// What an argument list asks for.
#[derive(Debug)]
pub enum Command {
    Init,
    CatFile { oid: String },
    HashObject { path: String },
    LsTree { oid: String },
    WriteTree,
    CommitTree { tree: String, parent: Option<String>, message: String },
    CloneRepo { url: String, dir: String },
}

/// The mathematical shape of a command.
pub ghost enum CommandView {
    Init,
    CatFile { oid: Seq<char> },
    HashObject { path: Seq<char> },
    LsTree { oid: Seq<char> },
    WriteTree,
    CommitTree { tree: Seq<char>, parent: Option<Seq<char>>, message: Seq<char> },
    CloneRepo { url: Seq<char>, dir: Seq<char> },
}

impl View for Command {
    type V = CommandView;

    open spec fn view(&self) -> CommandView {
        match self {
            Command::Init => CommandView::Init,
            Command::CatFile { oid } => CommandView::CatFile { oid: oid@ },
            Command::HashObject { path } => CommandView::HashObject { path: path@ },
            Command::LsTree { oid } => CommandView::LsTree { oid: oid@ },
            Command::WriteTree => CommandView::WriteTree,
            Command::CommitTree { tree, parent, message } => CommandView::CommitTree {
                tree: tree@,
                parent: match parent {
                    Some(p) => Some(p@),
                    None => None,
                },
                message: message@,
            },
            Command::CloneRepo { url, dir } => CommandView::CloneRepo { url: url@, dir: dir@ },
        }
    }
}

/// A URL with one trailing slash removed.
pub open spec fn strip_slash(s: Seq<char>) -> Seq<char> {
    if s.len() > 0 && s.last() == '/' {
        s.drop_last()
    } else {
        s
    }
}

/// The command an argument list names, or `BadArgs` when the surface is
/// misused: the program name first, then the command word and its
/// arguments in their exact places.
pub open spec fn command_of(args: Seq<Seq<char>>) -> Result<CommandView, GitError> {
    if args.len() < 2 {
        Err(GitError::BadArgs)
    } else if args[1] == "init"@ {
        if args.len() == 2 {
            Ok(CommandView::Init)
        } else {
            Err(GitError::BadArgs)
        }
    } else if args[1] == "cat-file"@ {
        if args.len() == 4 && args[2] == "-p"@ {
            Ok(CommandView::CatFile { oid: args[3] })
        } else {
            Err(GitError::BadArgs)
        }
    } else if args[1] == "hash-object"@ {
        if args.len() == 4 && args[2] == "-w"@ {
            Ok(CommandView::HashObject { path: args[3] })
        } else {
            Err(GitError::BadArgs)
        }
    } else if args[1] == "ls-tree"@ {
        if args.len() == 4 && args[2] == "--name-only"@ {
            Ok(CommandView::LsTree { oid: args[3] })
        } else {
            Err(GitError::BadArgs)
        }
    } else if args[1] == "write-tree"@ {
        if args.len() == 2 {
            Ok(CommandView::WriteTree)
        } else {
            Err(GitError::BadArgs)
        }
    } else if args[1] == "commit-tree"@ {
        if args.len() == 5 && args[3] == "-m"@ {
            Ok(CommandView::CommitTree { tree: args[2], parent: None, message: args[4] })
        } else if args.len() == 7 && args[3] == "-p"@ && args[5] == "-m"@ {
            Ok(
                CommandView::CommitTree {
                    tree: args[2],
                    parent: Some(args[4]),
                    message: args[6],
                },
            )
        } else {
            Err(GitError::BadArgs)
        }
    } else if args[1] == "clone"@ {
        if args.len() == 3 {
            Ok(CommandView::CloneRepo { url: strip_slash(args[2]), dir: Seq::empty() })
        } else if args.len() == 4 {
            Ok(CommandView::CloneRepo { url: strip_slash(args[2]), dir: args[3] })
        } else {
            Err(GitError::BadArgs)
        }
    } else {
        Err(GitError::BadArgs)
    }
}

/// Does `s` hold exactly the text `lit`?
fn str_is(s: &String, lit: &str) -> (r: bool)
    ensures
        r == (s@ == lit@),
{
    let other = String::from_str(lit);
    s.eq(&other)
}

/// The entry point of the command surface.
pub struct App {}

impl App {
    /// An app with no state: every command names its own inputs.
    pub fn new() -> (r: App) {
        App {}
    }

    /// Reads the argument list into the command it names; fails with
    /// `BadArgs` exactly when the surface is misused.
    pub fn run(&self, args: Vec<String>) -> (r: Result<Command, GitError>)
        ensures
            match r {
                Ok(c) => command_of(args@.map_values(|a: String| a@)) == Ok::<CommandView, GitError>(c@),
                Err(e) => command_of(args@.map_values(|a: String| a@)) == Err::<
                    CommandView,
                    GitError,
                >(e),
            },
    {
        let ghost views = args@.map_values(|a: String| a@);
        if args.len() < 2 {
            return Err(GitError::BadArgs);
        }
        if str_is(&args[1], "init") {
            if args.len() == 2 {
                Ok(Command::Init)
            } else {
                Err(GitError::BadArgs)
            }
        } else if str_is(&args[1], "cat-file") {
            if args.len() == 4 && str_is(&args[2], "-p") {
                Ok(Command::CatFile { oid: args[3].clone() })
            } else {
                Err(GitError::BadArgs)
            }
        } else if str_is(&args[1], "hash-object") {
            if args.len() == 4 && str_is(&args[2], "-w") {
                Ok(Command::HashObject { path: args[3].clone() })
            } else {
                Err(GitError::BadArgs)
            }
        } else if str_is(&args[1], "ls-tree") {
            if args.len() == 4 && str_is(&args[2], "--name-only") {
                Ok(Command::LsTree { oid: args[3].clone() })
            } else {
                Err(GitError::BadArgs)
            }
        } else if str_is(&args[1], "write-tree") {
            if args.len() == 2 {
                Ok(Command::WriteTree)
            } else {
                Err(GitError::BadArgs)
            }
        } else if str_is(&args[1], "commit-tree") {
            if args.len() == 5 && str_is(&args[3], "-m") {
                Ok(
                    Command::CommitTree {
                        tree: args[2].clone(),
                        parent: None,
                        message: args[4].clone(),
                    },
                )
            } else if args.len() == 7 && str_is(&args[3], "-p") && str_is(&args[5], "-m") {
                Ok(
                    Command::CommitTree {
                        tree: args[2].clone(),
                        parent: Some(args[4].clone()),
                        message: args[6].clone(),
                    },
                )
            } else {
                Err(GitError::BadArgs)
            }
        } else if str_is(&args[1], "clone") {
            if args.len() == 3 {
                let url = strip_trailing_slash(&args[2]);
                Ok(Command::CloneRepo { url, dir: String::new() })
            } else if args.len() == 4 {
                let url = strip_trailing_slash(&args[2]);
                Ok(Command::CloneRepo { url, dir: args[3].clone() })
            } else {
                Err(GitError::BadArgs)
            }
        } else {
            Err(GitError::BadArgs)
        }
    }
}

/// Removes one trailing `/` from a URL, if present.
fn strip_trailing_slash(s: &String) -> (r: String)
    ensures
        r@ == strip_slash(s@),
{
    let l = s.as_str().unicode_len();
    if l > 0 && s.as_str().get_char(l - 1) == '/' {
        let cut = s.as_str().substring_char(0, l - 1);
        proof {
            assert(s@.subrange(0, s@.len() - 1) =~= s@.drop_last());
        }
        String::from_str(cut)
    } else {
        s.clone()
    }
}

/// One repository being cloned: the in-memory object store, the remote
/// URL, the target directory, and the advertised refs.
pub struct Repo {
    pub objects: ObjectStore,
    pub head: String,
    pub remote: String,
    pub git_dir: String,
    pub refs: Vec<Ref>,
}

impl Repo {
    /// A repository's store is always well formed.
    pub open spec fn wf(self) -> bool {
        self.objects.wf()
    }

    /// A fresh repository for a remote and a target directory.
    pub fn new(remote: &str, git_dir: &str) -> (r: Repo)
        ensures
            r.wf(),
            r.objects.contents() == Map::<Seq<u8>, (crate::object::GitObjectType, Seq<u8>)>::empty(),
            r.head@ == Seq::<char>::empty(),
            r.remote@ == remote@,
            r.git_dir@ == git_dir@,
            r.refs@.len() == 0,
    {
        Repo {
            objects: ObjectStore::new(),
            head: String::new(),
            remote: String::from_str(remote),
            git_dir: String::from_str(git_dir),
            refs: Vec::new(),
        }
    }

    /// Records the refs a discovery response advertises; fails with
    /// `BadPack` exactly when the advertisement is malformed.
    pub fn load_refs(&mut self, body: &Vec<u8>) -> (r: Result<(), GitError>)
        requires
            old(self).wf(),
        ensures
            final(self).wf(),
            final(self).objects == old(self).objects,
            final(self).remote == old(self).remote,
            final(self).git_dir == old(self).git_dir,
            match r {
                Ok(()) => {
                    &&& crate::pkt::parse_pkt_lines(body@, 0) matches Some(lines)
                    &&& crate::refs::refs_fold(lines, 0, RefsView::init()) matches Some(rv)
                    &&& crate::refs::ref_list_matches(final(self).refs@, rv.refs)
                    &&& crate::refs::string_bytes(final(self).head@) == rv.head
                },
                Err(e) => {
                    &&& e == GitError::BadPack
                    &&& final(self).refs == old(self).refs
                    &&& final(self).head == old(self).head
                },
            },
    {
        match parse_refs(body) {
            Ok(refs) => {
                self.refs = refs.refs;
                self.head = refs.head;
                Ok(())
            },
            Err(e) => Err(e),
        }
    }

    /// Feeds a downloaded pack into the object store, exactly as
    /// `ingest_spec` says.
    pub fn ingest_pack(&mut self, pack: &Vec<u8>) -> (r: Result<usize, GitError>)
        requires
            old(self).wf(),
        ensures
            final(self).wf(),
            store_extends(final(self).objects.contents(), old(self).objects.contents()),
            final(self).head == old(self).head,
            final(self).refs == old(self).refs,
            match r {
                Ok(n) => ingest_spec(pack@, old(self).objects.contents()) == Ok::<
                    Map<Seq<u8>, (GitObjectType, Seq<u8>)>,
                    GitError,
                >(final(self).objects.contents()) && n == pack_count(pack@),
                Err(e) => ingest_spec(pack@, old(self).objects.contents()) == Err::<
                    Map<Seq<u8>, (GitObjectType, Seq<u8>)>,
                    GitError,
                >(e),
            },
    {
        ingest_pack(&mut self.objects, pack)
    }

    /// The loose object files that mirror the store: for each object its
    /// hex identifier and the deflated bytes to write under it.
    pub fn stored_files(&self) -> (r: Vec<(String, Vec<u8>)>)
        requires
            self.wf(),
        ensures
            r@.len() == self.objects.entries@.len(),
            forall|i: int|
                0 <= i < r@.len() ==> {
                    let obj = self.objects.entries@[i].1;
                    (#[trigger] r@[i]).0@ == obj.id@ && inflate_prefix_of(r@[i].1@, 0) == Some(
                        (encode_obj_spec(obj.object_type, obj.content@), r@[i].1@.len() as int),
                    )
                },
    {
        let mut out: Vec<(String, Vec<u8>)> = Vec::new();
        let n = self.objects.count();
        let mut i: usize = 0;
        while i < n
            invariant
                i <= n,
                n == self.objects.entries@.len(),
                self.wf(),
                out@.len() == i,
                forall|j: int|
                    0 <= j < i ==> {
                        let obj = self.objects.entries@[j].1;
                        (#[trigger] out@[j]).0@ == obj.id@ && inflate_prefix_of(out@[j].1@, 0)
                            == Some(
                            (encode_obj_spec(obj.object_type, obj.content@), out@[j].1@.len() as int),
                        )
                    },
            decreases n - i,
        {
            let obj = self.objects.object_at(i);
            let id = obj.id.clone();
            let bytes = obj.stored_bytes();
            out.push((id, bytes));
            i += 1;
        }
        out
    }
}

/// One filesystem step of a checkout: create a directory, or write a
/// file with the payload of a blob.
#[derive(Debug)]
pub enum CheckoutAction {
    MakeDir { path: Vec<u8> },
    WriteFile { path: Vec<u8>, mode: TreeMode, data: Vec<u8> },
}

/// The mathematical shape of a checkout step.
pub ghost enum ActionView {
    MakeDir { path: Seq<u8> },
    WriteFile { path: Seq<u8>, mode: TreeMode, data: Seq<u8> },
}

impl View for CheckoutAction {
    type V = ActionView;

    open spec fn view(&self) -> ActionView {
        match self {
            CheckoutAction::MakeDir { path } => ActionView::MakeDir { path: path@ },
            CheckoutAction::WriteFile { path, mode, data } => ActionView::WriteFile {
                path: path@,
                mode: *mode,
                data: data@,
            },
        }
    }
}

/// The views of a list of checkout steps.
pub open spec fn actions_view(s: Seq<CheckoutAction>) -> Seq<ActionView> {
    s.map_values(|a: CheckoutAction| a@)
}

/// A child's path under a directory, joined with `/`; the root is the
/// empty path.
pub open spec fn child_path(dir: Seq<u8>, name: Seq<u8>) -> Seq<u8> {
    if dir.len() == 0 {
        name
    } else {
        dir + seq![47u8] + name
    }
}

/// The steps that materialize the tree named `tree_oid` under `dir`:
/// each entry in order, subtrees first making their directory and then
/// their own steps. `fuel` bounds the nesting depth; a store whose trees
/// nest deeper than it is treated as corrupt.
pub open spec fn plan_tree(
    m: Map<Seq<u8>, (GitObjectType, Seq<u8>)>,
    dir: Seq<u8>,
    tree_oid: Seq<u8>,
    fuel: nat,
) -> Result<Seq<ActionView>, GitError>
    decreases fuel, 0nat, 0nat,
{
    if fuel == 0 {
        Err(GitError::CorruptObject)
    } else if !m.contains_key(tree_oid) {
        Err(GitError::NotFound)
    } else if m[tree_oid].0 != GitObjectType::Tree {
        Err(GitError::CorruptObject)
    } else {
        match parse_tree_spec(m[tree_oid].1) {
            None => Err(GitError::CorruptObject),
            Some(entries) => plan_entries(m, dir, entries, 0, (fuel - 1) as nat),
        }
    }
}

/// The steps for the entries of one tree from position `i` on.
pub open spec fn plan_entries(
    m: Map<Seq<u8>, (GitObjectType, Seq<u8>)>,
    dir: Seq<u8>,
    entries: Seq<TreeEntryView>,
    i: int,
    fuel: nat,
) -> Result<Seq<ActionView>, GitError>
    decreases fuel, 1nat, entries.len() - i,
{
    if i == entries.len() {
        Ok(Seq::empty())
    } else if i < 0 || i > entries.len() {
        Err(GitError::CorruptObject)
    } else {
        let e = entries[i];
        let p = child_path(dir, e.name);
        if e.mode == TreeMode::Subtree {
            match plan_tree(m, p, e.oid, fuel) {
                Err(err) => Err(err),
                Ok(sub) => match plan_entries(m, dir, entries, i + 1, fuel) {
                    Err(err) => Err(err),
                    Ok(rest) => Ok(seq![ActionView::MakeDir { path: p }] + sub + rest),
                },
            }
        } else {
            if !m.contains_key(e.oid) {
                Err(GitError::NotFound)
            } else if m[e.oid].0 != GitObjectType::Blob {
                Err(GitError::CorruptObject)
            } else {
                match plan_entries(m, dir, entries, i + 1, fuel) {
                    Err(err) => Err(err),
                    Ok(rest) => Ok(
                        seq![
                            ActionView::WriteFile { path: p, mode: e.mode, data: m[e.oid].1 },
                        ] + rest,
                    ),
                }
            }
        }
    }
}

/// The tree id named by a commit payload's first line, `tree <40 hex>`.
pub open spec fn commit_tree_of(payload: Seq<u8>) -> Option<Seq<u8>> {
    if payload.len() >= 46 && payload.subrange(0, 5) == seq![116u8, 114u8, 101u8, 101u8, 32u8]
        && payload[45] == 10 {
        Some(payload.subrange(5, 45))
    } else {
        None
    }
}

/// The steps of a whole checkout: the head id is decoded from hex, its
/// commit read, the named tree walked from the root.
pub open spec fn plan_checkout(
    m: Map<Seq<u8>, (GitObjectType, Seq<u8>)>,
    head_hex: Seq<u8>,
    fuel: nat,
) -> Result<Seq<ActionView>, GitError> {
    match parse_hex_bytes(head_hex) {
        None => Err(GitError::CorruptObject),
        Some(hoid) => {
            if !m.contains_key(hoid) {
                Err(GitError::NotFound)
            } else if m[hoid].0 != GitObjectType::Commit {
                Err(GitError::CorruptObject)
            } else {
                match commit_tree_of(m[hoid].1) {
                    None => Err(GitError::CorruptObject),
                    Some(thex) => match parse_hex_bytes(thex) {
                        None => Err(GitError::CorruptObject),
                        Some(troid) => plan_tree(m, Seq::empty(), troid, fuel),
                    },
                }
            }
        },
    }
}

/// Moves every step of `src` onto the end of `dst`.
fn append_actions(dst: &mut Vec<CheckoutAction>, src: Vec<CheckoutAction>)
    ensures
        actions_view(final(dst)@) == actions_view(old(dst)@) + actions_view(src@),
{
    let ghost dst0 = old(dst)@;
    let ghost src0 = src@;
    let mut rest = src;
    while rest.len() > 0
        invariant
            actions_view(dst@) + actions_view(rest@) =~= actions_view(dst0) + actions_view(src0),
        decreases rest@.len(),
    {
        let ghost restb = rest@;
        let a = rest.remove(0);
        dst.push(a);
        proof {
            assert(actions_view(dst@) =~= actions_view(dst@.drop_last()).push(restb[0]@));
            assert(actions_view(rest@) =~= actions_view(restb).drop_first());
            assert(actions_view(dst@) + actions_view(rest@) =~= actions_view(dst@.drop_last())
                + actions_view(restb));
        }
    }
    proof {
        assert(actions_view(rest@) =~= Seq::<ActionView>::empty());
        assert(actions_view(dst@) =~= actions_view(dst@) + actions_view(rest@));
    }
}

/// Walks one tree of the store, mirroring `plan_tree` exactly.
#[verifier::loop_isolation(false)]
#[verifier::rlimit(100)]
fn walk_tree(store: &ObjectStore, dir: &Vec<u8>, tree_oid: &Vec<u8>, fuel: usize) -> (r: Result<
    Vec<CheckoutAction>,
    GitError,
>)
    requires
        store.wf(),
    ensures
        match r {
            Ok(acts) => plan_tree(store.contents(), dir@, tree_oid@, fuel as nat) == Ok::<
                Seq<ActionView>,
                GitError,
            >(actions_view(acts@)),
            Err(e) => plan_tree(store.contents(), dir@, tree_oid@, fuel as nat) == Err::<
                Seq<ActionView>,
                GitError,
            >(e),
        },
    decreases fuel,
{
    let ghost m = store.contents();
    if fuel == 0 {
        return Err(GitError::CorruptObject);
    }
    let (t, payload) = match store.get(tree_oid) {
        Ok(tp) => tp,
        Err(e) => {
            return Err(e);
        },
    };
    if !matches!(t, GitObjectType::Tree) {
        return Err(GitError::CorruptObject);
    }
    let entries = match decode_tree(&payload) {
        Ok(es) => es,
        Err(e) => {
            return Err(e);
        },
    };
    let ghost ev = crate::tree::entries_view(entries@);
    let ghost f = (fuel - 1) as nat;
    let mut out: Vec<CheckoutAction> = Vec::new();
    let mut i: usize = 0;
    proof {
        assert(actions_view(out@) =~= Seq::<ActionView>::empty());
        match plan_entries(m, dir@, ev, 0, f) {
            Ok(rest) => {
                assert(Seq::<ActionView>::empty() + rest =~= rest);
            },
            Err(_) => {},
        }
    }
    while i < entries.len()
        invariant
            i <= ev.len(),
            ev == crate::tree::entries_view(entries@),
            match plan_entries(m, dir@, ev, i as int, f) {
                Ok(rest) => plan_entries(m, dir@, ev, 0, f) == Ok::<Seq<ActionView>, GitError>(
                    actions_view(out@) + rest,
                ),
                Err(e) => plan_entries(m, dir@, ev, 0, f) == Err::<Seq<ActionView>, GitError>(e),
            },
        decreases ev.len() - i,
    {
        let e = &entries[i];
        let mut p: Vec<u8>;
        if dir.len() == 0 {
            p = sub_bytes(&e.name, 0, e.name.len());
        } else {
            p = sub_bytes(dir, 0, dir.len());
            p.push(47);
            extend_bytes(&mut p, &e.name);
        }
        proof {
            assert(p@ =~= child_path(dir@, ev[i as int].name));
        }
        let ghost prev = out@;
        if matches!(e.mode, TreeMode::Subtree) {
            let sub = match walk_tree(store, &p, &e.oid, fuel - 1) {
                Ok(s) => s,
                Err(err) => {
                    return Err(err);
                },
            };
            let ghost subv = actions_view(sub@);
            let ghost pv = p@;
            out.push(CheckoutAction::MakeDir { path: p });
            let ghost mid = out@;
            append_actions(&mut out, sub);
            i += 1;
            proof {
                assert(actions_view(mid) =~= actions_view(prev).push(
                    ActionView::MakeDir { path: pv },
                ));
                match plan_entries(m, dir@, ev, i as int, f) {
                    Ok(rest) => {
                        assert(actions_view(out@) + rest =~= actions_view(prev) + (seq![
                            ActionView::MakeDir { path: child_path(dir@, ev[i - 1].name) },
                        ] + subv + rest));
                    },
                    Err(_) => {},
                }
            }
        } else {
            let (bt, data) = match store.get(&e.oid) {
                Ok(tp) => tp,
                Err(err) => {
                    return Err(err);
                },
            };
            if !matches!(bt, GitObjectType::Blob) {
                return Err(GitError::CorruptObject);
            }
            out.push(CheckoutAction::WriteFile { path: p, mode: e.mode, data });
            i += 1;
            proof {
                let w = ActionView::WriteFile {
                    path: child_path(dir@, ev[i - 1].name),
                    mode: ev[i - 1].mode,
                    data: m[ev[i - 1].oid].1,
                };
                assert(actions_view(out@) =~= actions_view(prev).push(w));
                match plan_entries(m, dir@, ev, i as int, f) {
                    Ok(rest) => {
                        assert(actions_view(out@) + rest =~= actions_view(prev) + (seq![w]
                            + rest));
                    },
                    Err(_) => {},
                }
            }
        }
    }
    proof {
        assert(actions_view(out@) + Seq::<ActionView>::empty() =~= actions_view(out@));
    }
    Ok(out)
}

impl Repo {
    /// Plans the working-tree writes for the commit named by a hex id:
    /// the commit's tree, walked from the root, in entry order.
    pub fn checkout_plan(&self, head_hex: &Vec<u8>, fuel: usize) -> (r: Result<
        Vec<CheckoutAction>,
        GitError,
    >)
        requires
            self.wf(),
        ensures
            match r {
                Ok(acts) => plan_checkout(self.objects.contents(), head_hex@, fuel as nat)
                    == Ok::<Seq<ActionView>, GitError>(actions_view(acts@)),
                Err(e) => plan_checkout(self.objects.contents(), head_hex@, fuel as nat) == Err::<
                    Seq<ActionView>,
                    GitError,
                >(e),
            },
    {
        let hoid = match hex_to_bin(head_hex) {
            Some(v) => v,
            None => {
                return Err(GitError::CorruptObject);
            },
        };
        let (t, payload) = match self.objects.get(&hoid) {
            Ok(tp) => tp,
            Err(e) => {
                return Err(e);
            },
        };
        if !matches!(t, GitObjectType::Commit) {
            return Err(GitError::CorruptObject);
        }
        // the first line must read `tree <40 hex>`
        if payload.len() < 46 {
            return Err(GitError::CorruptObject);
        }
        if !(payload[0] == 116 && payload[1] == 114 && payload[2] == 101 && payload[3] == 101
            && payload[4] == 32 && payload[45] == 10) {
            proof {
                if payload@.subrange(0, 5) == seq![116u8, 114u8, 101u8, 101u8, 32u8] {
                    assert(payload@.subrange(0, 5)[0] == 116 && payload@.subrange(0, 5)[1] == 114
                        && payload@.subrange(0, 5)[2] == 101 && payload@.subrange(0, 5)[3] == 101
                        && payload@.subrange(0, 5)[4] == 32);
                }
            }
            return Err(GitError::CorruptObject);
        }
        proof {
            assert(payload@.subrange(0, 5) =~= seq![116u8, 114u8, 101u8, 101u8, 32u8]);
        }
        let thex = sub_bytes(&payload, 5, 45);
        let troid = match hex_to_bin(&thex) {
            Some(v) => v,
            None => {
                return Err(GitError::CorruptObject);
            },
        };
        let root: Vec<u8> = Vec::new();
        proof {
            assert(root@ =~= Seq::<u8>::empty());
        }
        walk_tree(&self.objects, &root, &troid, fuel)
    }
}

/// The name `HEAD`.
pub open spec fn head_name() -> Seq<u8> {
    seq![72u8, 69u8, 65u8, 68u8]
}

/// The id the advertisement maps `HEAD` to, searching from the front.
pub open spec fn head_oid_of(refs: Seq<(Seq<u8>, Seq<u8>)>) -> Option<Seq<u8>>
    decreases refs.len(),
{
    if refs.len() == 0 {
        None
    } else if refs.first().0 == head_name() {
        Some(refs.first().1)
    } else {
        head_oid_of(refs.drop_first())
    }
}

/// The directory part of a ref name, up to its last `/`.
pub open spec fn parent_of(name: Seq<u8>) -> Seq<u8> {
    if find_last_byte(name, 47) < 0 {
        Seq::empty()
    } else {
        name.subrange(0, find_last_byte(name, 47))
    }
}

/// The ref files written for the advertisement from position `i` on,
/// given the id `HEAD` points at: `HEAD` itself, pull and tag refs are
/// skipped; a remote-tracking ref writes `<parent>/HEAD` as a symbolic
/// ref; any other ref writes its id; and the ref carrying the head id
/// also writes `HEAD` as a symbolic ref first.
pub open spec fn ref_writes(refs: Seq<(Seq<u8>, Seq<u8>)>, i: int, head: Seq<u8>) -> Seq<
    (Seq<u8>, Seq<u8>),
>
    decreases refs.len() - i,
{
    if i < 0 || i >= refs.len() {
        Seq::empty()
    } else {
        let name = refs[i].0;
        let hash = refs[i].1;
        let rest = ref_writes(refs, i + 1, head);
        if name == head_name() || has_prefix(
            name,
            seq![114u8, 101u8, 102u8, 115u8, 47u8, 112u8, 117u8, 108u8, 108u8],
        ) || has_prefix(name, seq![114u8, 101u8, 102u8, 115u8, 47u8, 116u8, 97u8, 103u8, 115u8]) {
            rest
        } else {
            let symref = seq![114u8, 101u8, 102u8, 58u8, 32u8] + name + seq![10u8];
            let w = if has_prefix(
                name,
                seq![
                    114u8, 101u8, 102u8, 115u8, 47u8, 114u8, 101u8, 109u8, 111u8, 116u8, 101u8,
                    115u8,
                ],
            ) {
                (parent_of(name) + seq![47u8] + head_name(), symref)
            } else {
                (name, hash + seq![10u8])
            };
            let hw = if hash == head {
                seq![(head_name(), symref)]
            } else {
                Seq::<(Seq<u8>, Seq<u8>)>::empty()
            };
            hw + seq![w] + rest
        }
    }
}

/// The files that mirror an advertisement to `.git`: `NotFound` exactly
/// when the advertisement named no `HEAD`.
pub open spec fn plan_refs_spec(refs: Seq<(Seq<u8>, Seq<u8>)>) -> Result<
    Seq<(Seq<u8>, Seq<u8>)>,
    GitError,
> {
    match head_oid_of(refs) {
        None => Err(GitError::NotFound),
        Some(h) => Ok(ref_writes(refs, 0, h)),
    }
}

/// The literal `HEAD` as bytes.
fn head_name_bytes() -> (r: Vec<u8>)
    ensures
        r@ == head_name(),
{
    let mut v: Vec<u8> = Vec::new();
    v.push(72);
    v.push(69);
    v.push(65);
    v.push(68);
    proof {
        assert(v@ =~= head_name());
    }
    v
}

/// `ref: <name>` with a line break, the content of a symbolic ref.
fn symref_content(name: &Vec<u8>) -> (r: Vec<u8>)
    ensures
        r@ == seq![114u8, 101u8, 102u8, 58u8, 32u8] + name@ + seq![10u8],
{
    let mut v: Vec<u8> = Vec::new();
    v.push(114);
    v.push(101);
    v.push(102);
    v.push(58);
    v.push(32);
    extend_bytes(&mut v, name);
    v.push(10);
    proof {
        assert(v@ =~= seq![114u8, 101u8, 102u8, 58u8, 32u8] + name@ + seq![10u8]);
    }
    v
}

/// Plans the ref files of a clone: relative paths under `.git` and the
/// bytes to write at each.
#[verifier::loop_isolation(false)]
#[verifier::rlimit(100)]
pub fn plan_ref_files(refs: &Vec<(Vec<u8>, Vec<u8>)>) -> (r: Result<
    Vec<(Vec<u8>, Vec<u8>)>,
    GitError,
>)
    ensures
        ({
            let rviews = refs@.map_values(|p: (Vec<u8>, Vec<u8>)| (p.0@, p.1@));
            match r {
                Ok(ws) => plan_refs_spec(rviews) == Ok::<Seq<(Seq<u8>, Seq<u8>)>, GitError>(
                    ws@.map_values(|p: (Vec<u8>, Vec<u8>)| (p.0@, p.1@)),
                ),
                Err(e) => plan_refs_spec(rviews) == Err::<Seq<(Seq<u8>, Seq<u8>)>, GitError>(e),
            }
        }),
{
    let ghost rviews = refs@.map_values(|p: (Vec<u8>, Vec<u8>)| (p.0@, p.1@));
    let head_lit = head_name_bytes();
    // find the id HEAD points at
    let mut h: usize = 0;
    let mut head: Option<Vec<u8>> = None;
    proof {
        assert(rviews.skip(0) =~= rviews);
    }
    while h < refs.len() && head.is_none()
        invariant
            h <= rviews.len(),
            match head {
                None => head_oid_of(rviews) == head_oid_of(rviews.skip(h as int)),
                Some(x) => head_oid_of(rviews) == Some(x@),
            },
        decreases rviews.len() - h + (if head is None { 1int } else { 0int }),
    {
        proof {
            assert(rviews.skip(h as int).first() == rviews[h as int]);
            assert(rviews.skip(h as int).drop_first() =~= rviews.skip(h + 1));
        }
        if bytes_eq(&refs[h].0, &head_lit) {
            let hc = sub_bytes(&refs[h].1, 0, refs[h].1.len());
            proof {
                assert(hc@ =~= rviews[h as int].1);
            }
            head = Some(hc);
        } else {
            h += 1;
        }
    }
    let head = match head {
        Some(hv) => hv,
        None => {
            proof {
                assert(rviews.skip(rviews.len() as int).len() == 0);
            }
            return Err(GitError::NotFound);
        },
    };
    let ghost hv = head@;
    // write each kept ref, with HEAD once beside the ref it names
    let mut out: Vec<(Vec<u8>, Vec<u8>)> = Vec::new();
    let mut i: usize = 0;
    proof {
        assert(out@.map_values(|p: (Vec<u8>, Vec<u8>)| (p.0@, p.1@)) =~= Seq::<
            (Seq<u8>, Seq<u8>),
        >::empty());
        assert(Seq::<(Seq<u8>, Seq<u8>)>::empty() + ref_writes(rviews, 0, hv) =~~= ref_writes(
            rviews,
            0,
            hv,
        ));
    }
    let mut pull_lit: Vec<u8> = Vec::new();
    pull_lit.push(114);
    pull_lit.push(101);
    pull_lit.push(102);
    pull_lit.push(115);
    pull_lit.push(47);
    pull_lit.push(112);
    pull_lit.push(117);
    pull_lit.push(108);
    pull_lit.push(108);
    let mut tags_lit: Vec<u8> = Vec::new();
    tags_lit.push(114);
    tags_lit.push(101);
    tags_lit.push(102);
    tags_lit.push(115);
    tags_lit.push(47);
    tags_lit.push(116);
    tags_lit.push(97);
    tags_lit.push(103);
    tags_lit.push(115);
    let mut remotes_lit: Vec<u8> = Vec::new();
    remotes_lit.push(114);
    remotes_lit.push(101);
    remotes_lit.push(102);
    remotes_lit.push(115);
    remotes_lit.push(47);
    remotes_lit.push(114);
    remotes_lit.push(101);
    remotes_lit.push(109);
    remotes_lit.push(111);
    remotes_lit.push(116);
    remotes_lit.push(101);
    remotes_lit.push(115);
    proof {
        assert(pull_lit@ =~= seq![
        114u8, 101u8, 102u8, 115u8, 47u8, 112u8, 117u8, 108u8, 108u8,
        ]);
        assert(tags_lit@ =~= seq![
        114u8, 101u8, 102u8, 115u8, 47u8, 116u8, 97u8, 103u8, 115u8,
        ]);
        assert(remotes_lit@ =~= seq![
        114u8, 101u8, 102u8, 115u8, 47u8, 114u8, 101u8, 109u8, 111u8, 116u8, 101u8, 115u8,
        ]);
    }
    while i < refs.len()
        invariant
            i <= rviews.len(),
            ref_writes(rviews, 0, hv) =~~= out@.map_values(|p: (Vec<u8>, Vec<u8>)| (p.0@, p.1@))
                + ref_writes(rviews, i as int, hv),
        decreases rviews.len() - i,
    {
        let name = &refs[i].0;
        let hash = &refs[i].1;
        let ghost prev = out@;
        let skip = bytes_eq(name, &head_lit) || starts_with_bytes(name, &pull_lit)
            || starts_with_bytes(name, &tags_lit);
        if !skip {
            if bytes_eq(hash, &head) {
                let hn = head_name_bytes();
                let sc = symref_content(name);
                out.push((hn, sc));
            }
            if starts_with_bytes(name, &remotes_lit) {
                let mut path: Vec<u8>;
                match find_last(name, 47) {
                    Some(k) => {
                        path = sub_bytes(name, 0, k);
                        proof {
                            assert(path@ =~= parent_of(name@));
                        }
                    },
                    None => {
                        path = Vec::new();
                        proof {
                            assert(path@ =~= parent_of(name@));
                        }
                    },
                }
                path.push(47);
                let hn2 = head_name_bytes();
                extend_bytes(&mut path, &hn2);
                let sc = symref_content(name);
                out.push((path, sc));
            } else {
                let path = sub_bytes(name, 0, name.len());
                let mut content = sub_bytes(hash, 0, hash.len());
                content.push(10);
                proof {
                    assert(content@ =~= rviews[i as int].1 + seq![10u8]);
                }
                out.push((path, content));
            }
        }
        i += 1;
        proof {
            let ws = out@.map_values(|p: (Vec<u8>, Vec<u8>)| (p.0@, p.1@));
            let pws = prev.map_values(|p: (Vec<u8>, Vec<u8>)| (p.0@, p.1@));
            assert(rviews[i - 1].0 == name@ && rviews[i - 1].1 == hash@);
            if !skip {
                if hash@ == hv {
                    if has_prefix(name@, remotes_lit@) {
                        assert(ws =~~= pws + seq![
                            (
                                head_name(),
                                seq![114u8, 101u8, 102u8, 58u8, 32u8] + name@ + seq![10u8],
                            ),
                            (
                                parent_of(name@) + seq![47u8] + head_name(),
                                seq![114u8, 101u8, 102u8, 58u8, 32u8] + name@ + seq![10u8],
                            ),
                        ]);
                    } else {
                        assert(ws =~~= pws + seq![
                            (
                                head_name(),
                                seq![114u8, 101u8, 102u8, 58u8, 32u8] + name@ + seq![10u8],
                            ),
                            (name@, hash@ + seq![10u8]),
                        ]);
                    }
                } else {
                    if has_prefix(name@, remotes_lit@) {
                        assert(ws =~~= pws + seq![
                            (
                                parent_of(name@) + seq![47u8] + head_name(),
                                seq![114u8, 101u8, 102u8, 58u8, 32u8] + name@ + seq![10u8],
                            ),
                        ]);
                    } else {
                        assert(ws =~~= pws + seq![(name@, hash@ + seq![10u8])]);
                    }
                }
            } else {
                assert(ws =~~= pws);
            }
            assert(ref_writes(rviews, 0, hv) =~~= ws + ref_writes(rviews, i as int, hv));
        }
    }
    proof {
        assert(ref_writes(rviews, rviews.len() as int, hv) =~= Seq::<(Seq<u8>, Seq<u8>)>::empty());
        assert(out@.map_values(|p: (Vec<u8>, Vec<u8>)| (p.0@, p.1@)) + Seq::<
            (Seq<u8>, Seq<u8>),
        >::empty() =~~= out@.map_values(|p: (Vec<u8>, Vec<u8>)| (p.0@, p.1@)));
    }
    Ok(out)
}

/// The content of `HEAD` in a fresh repository:
/// `ref: refs/heads/master` with a line break.
pub fn initial_head_content() -> (r: Vec<u8>)
    ensures
        r@ == seq![
            114u8, 101u8, 102u8, 58u8, 32u8, 114u8, 101u8, 102u8, 115u8, 47u8, 104u8, 101u8,
            97u8, 100u8, 115u8, 47u8, 109u8, 97u8, 115u8, 116u8, 101u8, 114u8, 10u8,
        ],
{
    let mut v: Vec<u8> = Vec::new();
    v.push(114);
    v.push(101);
    v.push(102);
    v.push(58);
    v.push(32);
    v.push(114);
    v.push(101);
    v.push(102);
    v.push(115);
    v.push(47);
    v.push(104);
    v.push(101);
    v.push(97);
    v.push(100);
    v.push(115);
    v.push(47);
    v.push(109);
    v.push(97);
    v.push(115);
    v.push(116);
    v.push(101);
    v.push(114);
    v.push(10);
    proof {
        assert(v@ =~= seq![
            114u8, 101u8, 102u8, 58u8, 32u8, 114u8, 101u8, 102u8, 115u8, 47u8, 104u8, 101u8,
            97u8, 100u8, 115u8, 47u8, 109u8, 97u8, 115u8, 116u8, 101u8, 114u8, 10u8,
        ]);
    }
    v
}

} // verus!
