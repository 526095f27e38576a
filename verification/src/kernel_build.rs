//! Turning kernel code into what the driver loads: where the files are looked for, and which
//! programs run on them.

use vstd::prelude::*;
use vstd::string::*;

use crate::board::{lemma_those_below, those_below};
use crate::build_identity::{join_path, joined, path_texts};
use crate::compute_cap::{all_digits, only_digits};
use crate::text::{chars_of, join2};

verus! {

/// The directories that the toolkit is looked for in when no variable names one.
pub open spec fn default_roots() -> Seq<Seq<char>> {
    seq![
        "/usr/local/cuda"@,
        "/usr/local/cuda-13.2"@,
        "/usr/local/cuda-12.9"@,
        "/opt/cuda"@,
    ]
}

/// The directories that variables name, in order, without those that are not set.
pub open spec fn set_roots(vars: Seq<Option<Seq<char>>>) -> Seq<Seq<char>>
    decreases vars.len(),
{
    if vars.len() == 0 {
        seq![]
    } else {
        match vars.last() {
            Some(root) => set_roots(vars.drop_last()).push(root),
            None => set_roots(vars.drop_last()),
        }
    }
}

/// The texts of variables.
pub open spec fn var_texts(vars: Seq<Option<String>>) -> Seq<Option<Seq<char>>> {
    Seq::new(
        vars.len(),
        |k: int|
            match vars[k] {
                Some(text) => Some(text@),
                None => None,
            },
    )
}

fn push_text(list: &mut Vec<String>, text: String)
    ensures
        path_texts(final(list)@) == path_texts(old(list)@).push(text@),
{
    let ghost t = text@;
    list.push(text);
    assert(path_texts(list@) =~= path_texts(old(list)@).push(t));
}

/// The directories that the toolkit is looked for in: those that variables name, then the usual
/// ones.
pub fn cuda_root_candidates(vars: &Vec<Option<String>>) -> (r: Vec<String>)
    ensures
        path_texts(r@) == set_roots(var_texts(vars@)) + default_roots(),
{
    let mut roots: Vec<String> = Vec::new();
    let mut i: usize = 0;
    let ghost all = var_texts(vars@);
    assert(all.take(0) =~= seq![]);
    assert(path_texts(roots@) =~= set_roots(all.take(0)));
    while i < vars.len()
        invariant
            i <= vars@.len(),
            all == var_texts(vars@),
            path_texts(roots@) == set_roots(all.take(i as int)),
        decreases vars@.len() - i,
    {
        let ghost more = all.take(i + 1);
        proof {
            assert(more.drop_last() =~= all.take(i as int));
            assert(more.last() == all[i as int]);
        }
        if let Some(root) = &vars[i] {
            push_text(&mut roots, root.clone());
        }
        i += 1;
    }
    assert(all.take(i as int) =~= all);
    push_text(&mut roots, "/usr/local/cuda".to_owned());
    push_text(&mut roots, "/usr/local/cuda-13.2".to_owned());
    push_text(&mut roots, "/usr/local/cuda-12.9".to_owned());
    push_text(&mut roots, "/opt/cuda".to_owned());
    assert(path_texts(roots@) =~= set_roots(all) + default_roots());
    roots
}

/// The file of device functions below a toolkit directory.
pub fn libdevice_path(root: &str) -> (r: String)
    ensures
        r@ == joined(root@, "nvvm/libdevice/libdevice.10.bc"@),
{
    join_path(root, "nvvm/libdevice/libdevice.10.bc")
}

/// The directory of libraries below a toolkit directory.
pub fn cuda_lib_dir(root: &str, windows: bool) -> (r: String)
    ensures
        r@ == if windows {
            joined(joined(root@, "lib"@), "x64"@)
        } else {
            joined(root@, "lib64"@)
        },
{
    if windows {
        join_path(join_path(root, "lib").as_str(), "x64")
    } else {
        join_path(root, "lib64")
    }
}

/// The toolkit directory that libraries are linked from where none was found.
pub open spec fn fallback_root(cuda_path: Option<Seq<char>>, windows: bool) -> Seq<char> {
    if windows {
        match cuda_path {
            Some(root) => root,
            None => "C:\\Program Files\\NVIDIA GPU Computing Toolkit\\CUDA"@,
        }
    } else {
        "/usr/local/cuda"@
    }
}

/// The directory of libraries that linking falls back to where the matrix library was found in
/// none. `cuda_path` is the variable of that name.
pub fn fallback_lib_dir(cuda_path: Option<String>, windows: bool) -> (r: String)
    ensures
        r@ == ({
            let root = fallback_root(
                match cuda_path {
                    Some(path) => Some(path@),
                    None => None,
                },
                windows,
            );
            if windows {
                joined(joined(root, "lib"@), "x64"@)
            } else {
                joined(root, "lib64"@)
            }
        }),
{
    if windows {
        match cuda_path {
            Some(path) => cuda_lib_dir(path.as_str(), windows),
            None => cuda_lib_dir("C:\\Program Files\\NVIDIA GPU Computing Toolkit\\CUDA", windows),
        }
    } else {
        cuda_lib_dir("/usr/local/cuda", windows)
    }
}

/// A file that is looked for.
#[derive(Debug)]
pub struct Candidate {
    pub path: String,
    pub is_file: bool,
}

/// The first candidate that is a file.
pub open spec fn first_file(candidates: Seq<Candidate>) -> Option<Seq<char>>
    decreases candidates.len(),
{
    if candidates.len() == 0 {
        None
    } else {
        match first_file(candidates.drop_last()) {
            Some(path) => Some(path),
            None => if candidates.last().is_file {
                Some(candidates.last().path@)
            } else {
                None
            },
        }
    }
}

/// The last candidate that is a file.
pub open spec fn last_file(candidates: Seq<Candidate>) -> Option<Seq<char>>
    decreases candidates.len(),
{
    if candidates.len() == 0 {
        None
    } else if candidates.last().is_file {
        Some(candidates.last().path@)
    } else {
        last_file(candidates.drop_last())
    }
}

fn find_first(candidates: &Vec<Candidate>) -> (r: Option<String>)
    ensures
        match r {
            Some(path) => first_file(candidates@) == Some(path@),
            None => first_file(candidates@) is None,
        },
{
    let mut found: Option<String> = None;
    let mut i: usize = 0;
    assert(candidates@.take(0) =~= seq![]);
    while i < candidates.len()
        invariant
            i <= candidates@.len(),
            match found {
                Some(path) => first_file(candidates@.take(i as int)) == Some(path@),
                None => first_file(candidates@.take(i as int)) is None,
            },
        decreases candidates@.len() - i,
    {
        assert(candidates@.take(i + 1).drop_last() =~= candidates@.take(i as int));
        if found.is_none() && candidates[i].is_file {
            found = Some(candidates[i].path.clone());
        }
        i += 1;
    }
    assert(candidates@.take(i as int) =~= candidates@);
    found
}

fn find_last_file(candidates: &Vec<Candidate>) -> (r: Option<String>)
    ensures
        match r {
            Some(path) => last_file(candidates@) == Some(path@),
            None => last_file(candidates@) is None,
        },
{
    let mut n: usize = candidates.len();
    assert(candidates@.take(n as int) =~= candidates@);
    while n > 0
        invariant
            n <= candidates@.len(),
            last_file(candidates@) == last_file(candidates@.take(n as int)),
        decreases n,
    {
        assert(candidates@.take(n as int).drop_last() =~= candidates@.take(n - 1));
        if candidates[n - 1].is_file {
            return Some(candidates[n - 1].path.clone());
        }
        n -= 1;
    }
    None
}

/// The device compiler: the one that a variable names, whether or not it is there; else the first
/// one below the directories that variables name; on Linux, else the usual one, and else the last
/// of those in directories named after a version; and else the bare name, for the search path.
pub open spec fn nvcc_of(
    set: Option<Seq<char>>,
    exe: Seq<char>,
    in_roots: Seq<Candidate>,
    linux: bool,
    usual: Candidate,
    versioned: Seq<Candidate>,
) -> Seq<char> {
    match set {
        Some(path) => path,
        None => match first_file(in_roots) {
            Some(path) => path,
            None => if linux && usual.is_file {
                usual.path@
            } else {
                match last_file(versioned) {
                    Some(path) => if linux {
                        path
                    } else {
                        exe
                    },
                    None => exe,
                }
            },
        },
    }
}

/// The device compiler. `versioned` is in ascending order.
pub fn find_nvcc(
    set: Option<String>,
    exe: &str,
    in_roots: &Vec<Candidate>,
    linux: bool,
    usual: &Candidate,
    versioned: &Vec<Candidate>,
) -> (r: String)
    ensures
        r@ == nvcc_of(
            match set {
                Some(path) => Some(path@),
                None => None,
            },
            exe@,
            in_roots@,
            linux,
            *usual,
            versioned@,
        ),
{
    if let Some(path) = set {
        return path;
    }
    if let Some(path) = find_first(in_roots) {
        return path;
    }
    if linux {
        if usual.is_file {
            return usual.path.clone();
        }
        if let Some(path) = find_last_file(versioned) {
            return path;
        }
    }
    exe.to_owned()
}

/// Whether a text names a compute capability that code can be made for: digits, and at least one.
pub fn is_compute_target(compute: &str) -> (r: bool)
    ensures
        r == (compute@.len() > 0 && all_digits(compute@)),
{
    let chars = chars_of(compute);
    chars.len() > 0 && only_digits(&chars)
}

/// The program that compiles the device code for one capability. `None` says that the capability is
/// not a number.
pub fn fatbin_command(nvcc: &str, compute: &str, output: &str) -> (r: Option<ToolCommand>)
    ensures
        r is Some <==> compute@.len() > 0 && all_digits(compute@),
        r matches Some(command) ==> command@.program == nvcc@ && command@.args == seq![
            "--fatbin"@,
            "--std=c++17"@,
            "-O3"@,
            "--generate-code"@,
            "arch=compute_"@ + compute@ + ",code=compute_"@ + compute@,
            "kernels/native_kernels.cu"@,
            "-o"@,
            output@,
        ],
{
    if !is_compute_target(compute) {
        return None;
    }
    let mut codegen = join2("arch=compute_", compute);
    codegen.append(",code=compute_");
    codegen.append(compute);
    let mut args: Vec<String> = Vec::new();
    push_text(&mut args, "--fatbin".to_owned());
    push_text(&mut args, "--std=c++17".to_owned());
    push_text(&mut args, "-O3".to_owned());
    push_text(&mut args, "--generate-code".to_owned());
    push_text(&mut args, codegen);
    push_text(&mut args, "kernels/native_kernels.cu".to_owned());
    push_text(&mut args, "-o".to_owned());
    push_text(&mut args, output.to_owned());
    assert(path_texts(args@) =~= seq![
        "--fatbin"@,
        "--std=c++17"@,
        "-O3"@,
        "--generate-code"@,
        "arch=compute_"@ + compute@ + ",code=compute_"@ + compute@,
        "kernels/native_kernels.cu"@,
        "-o"@,
        output@,
    ]);
    Some(ToolCommand { program: nvcc.to_owned(), args })
}

/// The files that show a directory to hold the matrix library; one of them is enough.
pub fn cublas_files(lib_dir: &str, windows: bool) -> (r: Vec<String>)
    ensures
        path_texts(r@) == if windows {
            seq![joined(lib_dir@, "cublas.lib"@)]
        } else {
            seq![joined(lib_dir@, "libcublas.so"@), joined(lib_dir@, "libcublas.so.12"@)]
        },
{
    let mut files: Vec<String> = Vec::new();
    if windows {
        push_text(&mut files, join_path(lib_dir, "cublas.lib"));
        assert(path_texts(files@) =~= seq![joined(lib_dir@, "cublas.lib"@)]);
    } else {
        push_text(&mut files, join_path(lib_dir, "libcublas.so"));
        push_text(&mut files, join_path(lib_dir, "libcublas.so.12"));
        assert(path_texts(files@) =~= seq![
            joined(lib_dir@, "libcublas.so"@),
            joined(lib_dir@, "libcublas.so.12"@),
        ]);
    }
    files
}

/// The files that can hold a kernel module in a directory: source to be built first, then what is
/// built already.
pub open spec fn artifacts_in(dir: Seq<char>, name: Seq<char>) -> Seq<Seq<char>> {
    seq![joined(dir, name + ".ll"@), joined(dir, name + ".cubin"@), joined(dir, name + ".ptx"@)]
}

/// The files that can hold a kernel module, in the order they are looked for.
pub fn kernel_candidates(manifest_dir: &str, workspace_root: &str, name: &str) -> (r: Vec<String>)
    ensures
        path_texts(r@) == artifacts_in(manifest_dir@, name@) + artifacts_in(
            workspace_root@,
            name@,
        ),
{
    let mut list: Vec<String> = Vec::new();
    push_text(&mut list, join_path(manifest_dir, join2(name, ".ll").as_str()));
    push_text(&mut list, join_path(manifest_dir, join2(name, ".cubin").as_str()));
    push_text(&mut list, join_path(manifest_dir, join2(name, ".ptx").as_str()));
    push_text(&mut list, join_path(workspace_root, join2(name, ".ll").as_str()));
    push_text(&mut list, join_path(workspace_root, join2(name, ".cubin").as_str()));
    push_text(&mut list, join_path(workspace_root, join2(name, ".ptx").as_str()));
    assert(path_texts(list@) =~= artifacts_in(manifest_dir@, name@) + artifacts_in(
        workspace_root@,
        name@,
    ));
    list
}

/// The first candidate that exists.
pub fn first_existing(exists: &[bool]) -> (r: Option<usize>)
    ensures
        match r {
            Some(k) => k < exists@.len() && exists@[k as int] && forall|j: int|
                0 <= j < k ==> !exists@[j],
            None => forall|j: int| 0 <= j < exists@.len() ==> !exists@[j],
        },
{
    let mut i: usize = 0;
    while i < exists.len()
        invariant
            i <= exists@.len(),
            forall|j: int| 0 <= j < i ==> !exists@[j],
        decreases exists@.len() - i,
    {
        if exists[i] {
            return Some(i);
        }
        i += 1;
    }
    None
}

/// A program to run with its arguments.
#[derive(Debug)]
pub struct ToolCommand {
    pub program: String,
    pub args: Vec<String>,
}

/// A program to run, as text.
pub struct CommandText {
    pub program: Seq<char>,
    pub args: Seq<Seq<char>>,
}

impl View for ToolCommand {
    type V = CommandText;

    open spec fn view(&self) -> CommandText {
        CommandText { program: self.program@, args: path_texts(self.args@) }
    }
}

/// What a kernel module is built with.
#[derive(Debug)]
pub struct Toolchain {
    pub llvm_link: String,
    pub opt: String,
    pub llc: String,
    /// Target processor.
    pub arch: String,
    /// File of device functions.
    pub libdevice: String,
    /// The kernels that stay visible.
    pub kernel_names: String,
}

/// Whether a module has to be built: the result is missing, or not newer than its source. A time
/// that cannot be read counts as missing.
pub fn needs_build(source_mtime: Option<u128>, result_mtime: Option<u128>) -> (r: bool)
    ensures
        r == !(source_mtime is Some && result_mtime is Some && result_mtime->Some_0
            > source_mtime->Some_0),
{
    match (source_mtime, result_mtime) {
        (Some(source), Some(result)) => result <= source,
        _ => true,
    }
}

/// The built module beside its source.
pub fn ptx_path(dir: &str, stem: &str) -> (r: String)
    ensures
        r@ == joined(dir@, stem@ + ".ptx"@),
{
    join_path(dir, join2(stem, ".ptx").as_str())
}

/// The three programs that build a module: the source is linked with the device functions, all but
/// the kernels is cut away, and the rest is compiled.
pub open spec fn build_commands(
    tools: Toolchain,
    source: Seq<char>,
    dir: Seq<char>,
    stem: Seq<char>,
) -> Seq<CommandText> {
    let linked = joined(dir, stem + ".linked.bc"@);
    let reduced = joined(dir, stem + ".opt.bc"@);
    seq![
        CommandText {
            program: tools.llvm_link@,
            args: seq![source, tools.libdevice@, "-o"@, linked],
        },
        CommandText {
            program: tools.opt@,
            args: seq![
                "--passes=nvvm-reflect,internalize,globaldce"@,
                "--internalize-public-api-list="@ + tools.kernel_names@,
                linked,
                "-o"@,
                reduced,
            ],
        },
        CommandText {
            program: tools.llc@,
            args: seq![
                "--mtriple=nvptx64-nvidia-cuda"@,
                "--mcpu="@ + tools.arch@,
                "-O2"@,
                "-o"@,
                joined(dir, stem + ".ptx"@),
                reduced,
            ],
        },
    ]
}

/// The texts of commands.
pub open spec fn command_texts(commands: Seq<ToolCommand>) -> Seq<CommandText> {
    Seq::new(commands.len(), |k: int| commands[k]@)
}

/// The three programs that build a module.
pub fn compile_ll_to_ptx(tools: &Toolchain, source: &str, dir: &str, stem: &str) -> (r: Vec<
    ToolCommand,
>)
    ensures
        command_texts(r@) == build_commands(*tools, source@, dir@, stem@),
{
    let linked = join_path(dir, join2(stem, ".linked.bc").as_str());
    let reduced = join_path(dir, join2(stem, ".opt.bc").as_str());
    let ptx = ptx_path(dir, stem);
    let mut link_args: Vec<String> = Vec::new();
    push_text(&mut link_args, source.to_owned());
    push_text(&mut link_args, tools.libdevice.clone());
    push_text(&mut link_args, "-o".to_owned());
    push_text(&mut link_args, linked.clone());
    let mut opt_args: Vec<String> = Vec::new();
    push_text(&mut opt_args, "--passes=nvvm-reflect,internalize,globaldce".to_owned());
    push_text(
        &mut opt_args,
        join2("--internalize-public-api-list=", tools.kernel_names.as_str()),
    );
    push_text(&mut opt_args, linked.clone());
    push_text(&mut opt_args, "-o".to_owned());
    push_text(&mut opt_args, reduced.clone());
    let mut llc_args: Vec<String> = Vec::new();
    push_text(&mut llc_args, "--mtriple=nvptx64-nvidia-cuda".to_owned());
    push_text(&mut llc_args, join2("--mcpu=", tools.arch.as_str()));
    push_text(&mut llc_args, "-O2".to_owned());
    push_text(&mut llc_args, "-o".to_owned());
    push_text(&mut llc_args, ptx);
    push_text(&mut llc_args, reduced);
    let ghost all = build_commands(*tools, source@, dir@, stem@);
    assert(path_texts(link_args@) =~= all[0].args);
    assert(path_texts(opt_args@) =~= all[1].args);
    assert(path_texts(llc_args@) =~= all[2].args);
    let mut commands: Vec<ToolCommand> = Vec::new();
    commands.push(ToolCommand { program: tools.llvm_link.clone(), args: link_args });
    commands.push(ToolCommand { program: tools.opt.clone(), args: opt_args });
    commands.push(ToolCommand { program: tools.llc.clone(), args: llc_args });
    assert(command_texts(commands@) =~= all);
    commands
}

/// Where a kernel module is loaded from.
#[derive(Clone, Copy, Debug, PartialEq, Eq, Structural)]
pub enum ModuleSource {
    /// The native image that was built in.
    NativeImage,
    /// A file that is looked for.
    File,
}

/// Why no kernel module can be loaded.
#[derive(Clone, Copy, Debug, PartialEq, Eq, Structural)]
pub enum ModuleError {
    /// The native backend is asked for but was not built in.
    NativeMissing,
    /// Nothing but the native backend was built in, and it is not asked for.
    NotSelected,
}

impl ModuleError {
    /// The text of the error for the module `name`.
    pub open spec fn text(self, name: Seq<char>) -> Seq<char> {
        match self {
            ModuleError::NativeMissing => {
                "native CUDA was requested, but nnue-train was built without --features native-cuda"@
            },
            ModuleError::NotSelected => {
                "native CUDA module `"@ + name + "` was not selected"@
            },
        }
    }

    /// The text of the error for the module `name`.
    pub fn message(&self, name: &str) -> (r: String)
        ensures
            r@ == self.text(name@),
    {
        match self {
            ModuleError::NativeMissing => {
                "native CUDA was requested, but nnue-train was built without --features native-cuda".to_owned()
            },
            ModuleError::NotSelected => {
                let mut out = "native CUDA module `".to_owned();
                out.append(name);
                out.append("` was not selected");
                out
            },
        }
    }
}

/// Where a kernel module is loaded from, by the backends that were built in and the one that is
/// asked for.
pub fn module_source(native_built: bool, files_built: bool, native_requested: bool) -> (r: Result<
    ModuleSource,
    ModuleError,
>)
    ensures
        r == if native_requested && native_built {
            Ok::<ModuleSource, ModuleError>(ModuleSource::NativeImage)
        } else if native_requested {
            Err(ModuleError::NativeMissing)
        } else if files_built {
            Ok(ModuleSource::File)
        } else {
            Err(ModuleError::NotSelected)
        },
{
    if native_requested {
        return if native_built {
            Ok(ModuleSource::NativeImage)
        } else {
            Err(ModuleError::NativeMissing)
        };
    }
    if files_built {
        Ok(ModuleSource::File)
    } else {
        Err(ModuleError::NotSelected)
    }
}

/// The first file among candidates, and the last: every candidate before the one, and behind the
/// other, is no file.
pub proof fn the_first_and_the_last_file_are_found(candidates: Seq<Candidate>)
    ensures
        match first_file(candidates) {
            Some(path) => exists|k: int|
                0 <= k < candidates.len() && (#[trigger] candidates[k]).is_file
                    && candidates[k].path@ == path && forall|j: int|
                    0 <= j < k ==> !candidates[j].is_file,
            None => forall|j: int| 0 <= j < candidates.len() ==> !candidates[j].is_file,
        },
        match last_file(candidates) {
            Some(path) => exists|k: int|
                0 <= k < candidates.len() && (#[trigger] candidates[k]).is_file
                    && candidates[k].path@ == path && forall|j: int|
                    k < j < candidates.len() ==> !candidates[j].is_file,
            None => forall|j: int| 0 <= j < candidates.len() ==> !candidates[j].is_file,
        },
    decreases candidates.len(),
{
    if candidates.len() > 0 {
        let front = candidates.drop_last();
        let n = candidates.len() - 1;
        the_first_and_the_last_file_are_found(front);
        if first_file(front) is Some {
            let k = choose|k: int|
                0 <= k < front.len() && (#[trigger] front[k]).is_file && front[k].path@
                    == first_file(front)->Some_0 && forall|j: int|
                    0 <= j < k ==> !front[j].is_file;
            assert(candidates[k] == front[k]);
            assert forall|j: int| 0 <= j < k implies !candidates[j].is_file by {
                assert(candidates[j] == front[j]);
            }
        } else {
            assert forall|j: int| 0 <= j < n implies !candidates[j].is_file by {
                assert(candidates[j] == front[j]);
            }
            if candidates.last().is_file {
                assert(candidates[n].is_file);
            }
        }
        if candidates.last().is_file {
            assert(candidates[n].is_file);
        } else if last_file(front) is Some {
            let k = choose|k: int|
                0 <= k < front.len() && (#[trigger] front[k]).is_file && front[k].path@
                    == last_file(front)->Some_0 && forall|j: int|
                    k < j < front.len() ==> !front[j].is_file;
            assert(candidates[k] == front[k]);
            assert forall|j: int| k < j < candidates.len() implies !candidates[j].is_file by {
                if j < n {
                    assert(candidates[j] == front[j]);
                }
            }
        }
    }
}

/// The programs that build a kernel hand their files on: the linker reads the kernel and the
/// device library, the optimiser reads what it wrote, and the code generator reads what the
/// optimiser wrote and writes the kernel's assembly.
pub proof fn build_steps_hand_their_files_on(
    tools: Toolchain,
    source: Seq<char>,
    dir: Seq<char>,
    stem: Seq<char>,
)
    ensures
        ({
            let c = build_commands(tools, source, dir, stem);
            &&& c.len() == 3
            &&& c[0].program == tools.llvm_link@ && c[1].program == tools.opt@ && c[2].program
                == tools.llc@
            &&& c[0].args.len() == 4 && c[1].args.len() == 5 && c[2].args.len() == 6
            &&& c[0].args[0] == source && c[0].args[1] == tools.libdevice@
            &&& c[0].args[2] == "-o"@ && c[1].args[3] == "-o"@ && c[2].args[3] == "-o"@
            &&& c[1].args[2] == c[0].args[3]
            &&& c[2].args[5] == c[1].args[4]
            &&& c[2].args[4] == joined(dir, stem + ".ptx"@)
            &&& c[2].args[1] == "--mcpu="@ + tools.arch@
            &&& c[1].args[1] == "--internalize-public-api-list="@ + tools.kernel_names@
        }),
{
}

/// The directories that variables name come in the order of the variables, each once, and a
/// variable that is not set names none.
pub proof fn variables_come_in_order(vars: Seq<Option<Seq<char>>>, k: int)
    requires
        0 <= k < vars.len(),
    ensures
        set_roots(vars).len() == those_below(
            vars.len() as int,
            |j: int| vars[j] is Some,
        ).len(),
        vars[k] matches Some(root) ==> {
            let at = those_below(k, |j: int| vars[j] is Some).len() as int;
            at < set_roots(vars).len() && set_roots(vars)[at] == root
        },
{
    assert(vars.take(vars.len() as int) =~= vars);
    lemma_set_roots(vars, vars.len(), k);
}

proof fn lemma_set_roots(vars: Seq<Option<Seq<char>>>, n: nat, k: int)
    requires
        n <= vars.len(),
    ensures
        ({
            let roots = set_roots(vars.take(n as int));
            &&& roots.len() == those_below(n as int, |j: int| vars[j] is Some).len()
            &&& 0 <= k < n && vars[k] is Some ==> {
                let at = those_below(k, |j: int| vars[j] is Some).len() as int;
                at < roots.len() && Some(roots[at]) == vars[k]
            }
        }),
    decreases n,
{
    lemma_those_below(n as int, |j: int| vars[j] is Some);
    if n > 0 {
        assert(vars.take(n as int).drop_last() =~= vars.take(n - 1));
        lemma_set_roots(vars, (n - 1) as nat, k);
    }
}

/// A compiler that is set is used as it is. Else one that is there is used, the first of the
/// directories before all others, and the bare name only where none was found.
pub proof fn a_compiler_that_is_there_is_used(
    set: Option<Seq<char>>,
    exe: Seq<char>,
    in_roots: Seq<Candidate>,
    linux: bool,
    usual: Candidate,
    versioned: Seq<Candidate>,
    k: int,
)
    ensures
        ({
            let path = nvcc_of(set, exe, in_roots, linux, usual, versioned);
            &&& set matches Some(p) ==> path == p
            &&& set is None ==> {
                ||| exists|j: int|
                    0 <= j < in_roots.len() && (#[trigger] in_roots[j]).is_file && path
                        == in_roots[j].path@
                ||| linux && usual.is_file && path == usual.path@
                ||| linux && exists|j: int|
                    0 <= j < versioned.len() && (#[trigger] versioned[j]).is_file && path
                        == versioned[j].path@
                ||| path == exe
            }
            &&& set is None && 0 <= k < in_roots.len() && in_roots[k].is_file && (forall|j: int|
                0 <= j < k ==> !in_roots[j].is_file) ==> path == in_roots[k].path@
            &&& set is None && (forall|j: int| 0 <= j < in_roots.len() ==> !in_roots[j].is_file)
                ==> {
                &&& !linux ==> path == exe
                &&& linux && usual.is_file ==> path == usual.path@
                &&& linux && !usual.is_file && 0 <= k < versioned.len() && versioned[k].is_file && (
                forall|j: int| k < j < versioned.len() ==> !versioned[j].is_file) ==> path
                    == versioned[k].path@
            }
        }),
{
    the_first_and_the_last_file_are_found(in_roots);
    the_first_and_the_last_file_are_found(versioned);
}

} // verus!
