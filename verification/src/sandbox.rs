//! What a build hands the sandbox launcher: the scrubbed environment
//! and the launcher's argument list, assembled exactly as specified —
//! the fixed sandbox layout, one read-only bind per input source, the
//! builder and its arguments.
use crate::de::string_from_utf8;
use crate::store::hex_char;
use crate::types::BasicDerivation;
use crate::types::DerivationOutputView;
use vstd::prelude::*;
use vstd::utf8::encode_utf8;
use vstd::utf8::encode_utf8_decode_utf8;
use vstd::utf8::encode_utf8_valid_utf8;
use vstd::utf8::is_ascii_chars;
use vstd::utf8::is_ascii_chars_encode_utf8;

verus! {

/// The decimal spelling of a number, most significant digit first.
pub open spec fn dec_digits(n: nat) -> Seq<char>
    decreases n,
{
    if n < 10 {
        seq![hex_char(n as u8)]
    } else {
        dec_digits(n / 10).push(hex_char((n % 10) as u8))
    }
}

/// The characters of a digit run collected in reverse.
pub open spec fn rev_chars(rev: Seq<u8>) -> Seq<char> {
    Seq::new(rev.len(), |i: int| rev[rev.len() - 1 - i] as char)
}

/// Spells a number in decimal.
pub fn u64_to_dec(n: u64) -> (r: String)
    ensures
        r@ == dec_digits(n as nat),
{
    let mut rev: Vec<u8> = Vec::new();
    if n == 0 {
        rev.push(48);
        proof {
            assert(rev_chars(rev@) =~= seq![hex_char(0)]);
            assert(dec_digits(n as nat) =~= rev_chars(rev@));
        }
    } else {
        let mut m = n;
        proof {
            assert(rev_chars(rev@) =~= Seq::<char>::empty());
            assert(dec_digits(n as nat) =~= dec_digits(m as nat) + rev_chars(rev@));
        }
        while m > 0
            invariant
                forall|i: int| 0 <= i < rev@.len() ==> 48 <= #[trigger] rev@[i] < 58,
                (if m > 0 {
                    dec_digits(n as nat) == dec_digits(m as nat) + rev_chars(rev@)
                } else {
                    rev@.len() >= 1 && dec_digits(n as nat) == rev_chars(rev@)
                }),
            decreases m,
        {
            let d = (m % 10) as u8;
            let ghost m_old = m;
            let ghost rev_old = rev@;
            let c = d + 48;
            proof {
                assert(c == hex_char(d) as u8 && 48 <= c < 58);
            }
            rev.push(c);
            m = m / 10;
            proof {
                assert(rev_chars(rev@) =~= seq![hex_char(d)] + rev_chars(rev_old));
                if m_old < 10 {
                    assert(dec_digits(m_old as nat) =~= seq![hex_char(d)]);
                    assert(dec_digits(n as nat) =~= rev_chars(rev@));
                } else {
                    assert(dec_digits(m_old as nat) == dec_digits(m_old as nat / 10).push(
                        hex_char(d),
                    ));
                    assert(dec_digits(m_old as nat / 10).push(hex_char(d)) =~= dec_digits(
                        m as nat,
                    ) + seq![hex_char(d)]);
                    assert(dec_digits(m as nat) + (seq![hex_char(d)] + rev_chars(rev_old))
                        =~= (dec_digits(m as nat) + seq![hex_char(d)]) + rev_chars(rev_old));
                    assert(dec_digits(n as nat) == dec_digits(m as nat) + rev_chars(rev@));
                }
            }
        }
    }
    let ghost goal = dec_digits(n as nat);
    let mut out: Vec<u8> = Vec::new();
    let k = rev.len();
    let mut i: usize = 0;
    while i < k
        invariant
            k == rev@.len(),
            i <= k,
            goal == rev_chars(rev@),
            forall|j: int| 0 <= j < rev@.len() ==> 48 <= #[trigger] rev@[j] < 58,
            out@.len() == i,
            forall|j: int| 0 <= j < i ==> out@[j] == rev@[k - 1 - j],
        decreases k - i,
    {
        let b = rev[k - 1 - i];
        out.push(b);
        i = i + 1;
    }
    proof {
        assert forall|j: int| 0 <= j < goal.len() implies '\0' <= #[trigger] goal[j]
            <= '\u{7f}' by {
            assert(goal[j] == rev@[k - 1 - j] as char);
        }
        assert(is_ascii_chars(goal));
        is_ascii_chars_encode_utf8(goal);
        assert forall|j: int| 0 <= j < goal.len() implies encode_utf8(goal)[j] == out@[j] by {
            assert(goal[j] == rev@[k - 1 - j] as char);
            assert(out@[j] == rev@[k - 1 - j]);
        }
        assert(out@ =~= encode_utf8(goal));
        encode_utf8_valid_utf8(goal);
        encode_utf8_decode_utf8(goal);
    }
    match string_from_utf8(out) {
        Ok(s) => s,
        Err(_) => {
            proof {
                assert(false);
            }
            String::new()
        },
    }
}

/// The scrubbed environment every build starts from: the fixed
/// entries, with the client's core count spelled into
/// `NIX_BUILD_CORES`.
pub open spec fn base_env(cores: u64) -> Seq<(Seq<char>, Seq<char>)> {
    seq![
        ("PATH"@, "/path-not-set"@),
        ("HOME"@, "/homeless-shelter"@),
        ("NIX_STORE"@, "/nix/store"@),
        ("NIX_BUILD_CORES"@, dec_digits(cores as nat)),
        ("NIX_BUILD_TOP"@, "/build"@),
        ("TMPDIR"@, "/build"@),
        ("TEMPDIR"@, "/build"@),
        ("TMP"@, "/build"@),
        ("TEMP"@, "/build"@),
    ]
}

/// One environment entry per declared output, mapping its name to its
/// predicted path; these come last, so they win.
pub open spec fn outputs_env(outputs: Seq<DerivationOutputView>) -> Seq<(Seq<char>, Seq<char>)> {
    outputs.map_values(|o: DerivationOutputView| (o.name, o.path_s))
}

/// The environment a build runs under: the scrubbed base, then the
/// recipe's own entries, then one entry per declared output.
pub fn build_env(drv: &BasicDerivation, cores: u64) -> (r: Vec<(String, String)>)
    ensures
        r.deep_view() == base_env(cores) + drv@.env + outputs_env(drv@.outputs),
{
    let mut out: Vec<(String, String)> = Vec::new();
    out.push((String::from_str("PATH"), String::from_str("/path-not-set")));
    out.push((String::from_str("HOME"), String::from_str("/homeless-shelter")));
    out.push((String::from_str("NIX_STORE"), String::from_str("/nix/store")));
    out.push((String::from_str("NIX_BUILD_CORES"), u64_to_dec(cores)));
    out.push((String::from_str("NIX_BUILD_TOP"), String::from_str("/build")));
    out.push((String::from_str("TMPDIR"), String::from_str("/build")));
    out.push((String::from_str("TEMPDIR"), String::from_str("/build")));
    out.push((String::from_str("TMP"), String::from_str("/build")));
    out.push((String::from_str("TEMP"), String::from_str("/build")));
    proof {
        assert(out.deep_view() =~= base_env(cores));
    }
    let ghost env_dv = drv.env.deep_view();
    let mut i: usize = 0;
    proof {
        assert(env_dv.take(0) =~= Seq::<(Seq<char>, Seq<char>)>::empty());
        assert(out.deep_view() =~= base_env(cores) + env_dv.take(0));
    }
    while i < drv.env.len()
        invariant
            i <= drv.env@.len(),
            env_dv == drv.env.deep_view(),
            out.deep_view() == base_env(cores) + env_dv.take(i as int),
        decreases drv.env@.len() - i,
    {
        let ghost out0 = out.deep_view();
        let k = drv.env[i].0.clone();
        let v = drv.env[i].1.clone();
        out.push((k, v));
        proof {
            assert(env_dv[i as int] == (drv.env@[i as int].0@, drv.env@[i as int].1@));
            assert(out.deep_view() =~= out0.push(env_dv[i as int]));
            assert(env_dv.take(i + 1) =~= env_dv.take(i as int).push(env_dv[i as int]));
            assert(base_env(cores) + env_dv.take(i as int) + seq![env_dv[i as int]] =~= base_env(
                cores,
            ) + env_dv.take(i + 1));
            assert(out.deep_view() =~= base_env(cores) + env_dv.take(i + 1));
        }
        i = i + 1;
    }
    proof {
        assert(env_dv.take(drv.env@.len() as int) =~= env_dv);
    }
    let ghost ov = crate::types::outputs_view(drv.outputs@);
    let mut j: usize = 0;
    proof {
        assert(ov.take(0) =~= Seq::<DerivationOutputView>::empty());
        assert(outputs_env(ov.take(0)) =~= Seq::<(Seq<char>, Seq<char>)>::empty());
        assert(out.deep_view() =~= base_env(cores) + env_dv + outputs_env(ov.take(0)));
    }
    while j < drv.outputs.len()
        invariant
            j <= drv.outputs@.len(),
            env_dv == drv.env.deep_view(),
            ov == crate::types::outputs_view(drv.outputs@),
            out.deep_view() == base_env(cores) + env_dv + outputs_env(ov.take(j as int)),
        decreases drv.outputs@.len() - j,
    {
        let ghost out0 = out.deep_view();
        let name = drv.outputs[j].name.clone();
        let path_s = drv.outputs[j].path_s.clone();
        out.push((name, path_s));
        proof {
            assert(ov[j as int] == drv.outputs@[j as int]@);
            assert(out.deep_view() =~= out0.push((ov[j as int].name, ov[j as int].path_s)));
            assert(ov.take(j + 1) =~= ov.take(j as int).push(ov[j as int]));
            assert(outputs_env(ov.take(j + 1)) =~= outputs_env(ov.take(j as int)).push(
                (ov[j as int].name, ov[j as int].path_s),
            ));
            assert(base_env(cores) + env_dv + outputs_env(ov.take(j as int)) + seq![
                (ov[j as int].name, ov[j as int].path_s),
            ] =~= base_env(cores) + env_dv + outputs_env(ov.take(j + 1)));
            assert(out.deep_view() =~= base_env(cores) + env_dv + outputs_env(ov.take(j + 1)));
        }
        j = j + 1;
    }
    proof {
        assert(ov.take(drv.outputs@.len() as int) =~= ov);
        assert(out.deep_view() =~= base_env(cores) + drv@.env + outputs_env(drv@.outputs));
    }
    out
}

/// The fixed opening of the launcher's argument list: unshare
/// everything, die with the parent, the private root, `/dev`, `/proc`,
/// a writable `/build` working directory, and the shell bound to
/// `/bin/sh`.
pub open spec fn fixed_args(tmp_root: Seq<char>, sh: Seq<char>) -> Seq<Seq<char>> {
    seq![
        "--unshare-all"@,
        "--die-with-parent"@,
        "--bind"@,
        tmp_root,
        "/"@,
        "--dev"@,
        "/dev"@,
        "--proc"@,
        "/proc"@,
        "--tmpfs"@,
        "/build"@,
        "--chdir"@,
        "/build"@,
        "--ro-bind"@,
        sh,
        "/bin/sh"@,
    ]
}

/// One read-only bind per input source: its file under the store root
/// appears at its own absolute path.
pub open spec fn bind_args(root: Seq<char>, srcs: Seq<Seq<char>>) -> Seq<Seq<char>>
    decreases srcs.len(),
{
    if srcs.len() == 0 {
        Seq::empty()
    } else {
        seq!["--ro-bind"@, root + srcs[0], srcs[0]] + bind_args(root, srcs.drop_first())
    }
}

/// Adding one more source to the run of binds.
proof fn lemma_bind_args_snoc(root: Seq<char>, srcs: Seq<Seq<char>>, x: Seq<char>)
    ensures
        bind_args(root, srcs.push(x)) == bind_args(root, srcs) + seq!["--ro-bind"@, root + x, x],
    decreases srcs.len(),
{
    if srcs.len() == 0 {
        assert(srcs.push(x).drop_first() =~= srcs);
        assert(bind_args(root, srcs) =~= Seq::<Seq<char>>::empty());
        assert(bind_args(root, srcs.push(x)) =~= seq!["--ro-bind"@, root + x, x]);
        assert(bind_args(root, srcs) + seq!["--ro-bind"@, root + x, x] =~= seq![
            "--ro-bind"@,
            root + x,
            x,
        ]);
    } else {
        assert(srcs.push(x).drop_first() =~= srcs.drop_first().push(x));
        lemma_bind_args_snoc(root, srcs.drop_first(), x);
        assert(seq!["--ro-bind"@, root + srcs[0], srcs[0]] + (bind_args(root, srcs.drop_first())
            + seq!["--ro-bind"@, root + x, x]) =~= (seq!["--ro-bind"@, root + srcs[0], srcs[0]]
            + bind_args(root, srcs.drop_first())) + seq!["--ro-bind"@, root + x, x]);
    }
}

/// The launcher's whole argument list: the fixed opening, the binds,
/// the builder, and the recipe's arguments. A source's file on disk is
/// the store root followed by its absolute path.
pub open spec fn bwrap_argv(
    drv: crate::types::BasicDerivationView,
    store_root: Seq<char>,
    tmp_root: Seq<char>,
    sh: Seq<char>,
) -> Seq<Seq<char>> {
    fixed_args(tmp_root, sh) + bind_args(store_root, drv.input_srcs) + seq![drv.builder]
        + drv.args
}

/// Assembles the launcher's argument list.
pub fn bwrap_args(drv: &BasicDerivation, store_root: &str, tmp_root: &str, sh: &str) -> (r: Vec<
    String,
>)
    ensures
        r.deep_view() == bwrap_argv(drv@, store_root@, tmp_root@, sh@),
{
    let mut out: Vec<String> = Vec::new();
    out.push(String::from_str("--unshare-all"));
    out.push(String::from_str("--die-with-parent"));
    out.push(String::from_str("--bind"));
    out.push(String::from_str(tmp_root));
    out.push(String::from_str("/"));
    out.push(String::from_str("--dev"));
    out.push(String::from_str("/dev"));
    out.push(String::from_str("--proc"));
    out.push(String::from_str("/proc"));
    out.push(String::from_str("--tmpfs"));
    out.push(String::from_str("/build"));
    out.push(String::from_str("--chdir"));
    out.push(String::from_str("/build"));
    out.push(String::from_str("--ro-bind"));
    out.push(String::from_str(sh));
    out.push(String::from_str("/bin/sh"));
    proof {
        assert(out.deep_view() =~= fixed_args(tmp_root@, sh@));
    }
    let ghost srcs = drv.input_srcs.deep_view();
    let mut i: usize = 0;
    proof {
        assert(srcs.take(0) =~= Seq::<Seq<char>>::empty());
        assert(bind_args(store_root@, srcs.take(0)) =~= Seq::<Seq<char>>::empty());
        assert(out.deep_view() =~= fixed_args(tmp_root@, sh@) + bind_args(
            store_root@,
            srcs.take(0),
        ));
    }
    while i < drv.input_srcs.len()
        invariant
            i <= drv.input_srcs@.len(),
            srcs == drv.input_srcs.deep_view(),
            out.deep_view() == fixed_args(tmp_root@, sh@) + bind_args(
                store_root@,
                srcs.take(i as int),
            ),
        decreases drv.input_srcs@.len() - i,
    {
        let ghost out0 = out.deep_view();
        out.push(String::from_str("--ro-bind"));
        let on_disk = String::from_str(store_root).concat(drv.input_srcs[i].as_str());
        out.push(on_disk);
        out.push(drv.input_srcs[i].clone());
        proof {
            assert(srcs[i as int] == drv.input_srcs@[i as int]@);
            assert(out.deep_view() =~= out0 + seq![
                "--ro-bind"@,
                store_root@ + srcs[i as int],
                srcs[i as int],
            ]);
            lemma_bind_args_snoc(store_root@, srcs.take(i as int), srcs[i as int]);
            assert(srcs.take(i as int).push(srcs[i as int]) =~= srcs.take(i + 1));
            assert(fixed_args(tmp_root@, sh@) + bind_args(store_root@, srcs.take(i as int))
                + seq!["--ro-bind"@, store_root@ + srcs[i as int], srcs[i as int]] =~= fixed_args(
                tmp_root@,
                sh@,
            ) + bind_args(store_root@, srcs.take(i + 1)));
        }
        i = i + 1;
    }
    proof {
        assert(srcs.take(drv.input_srcs@.len() as int) =~= srcs);
    }
    let ghost before_builder = out.deep_view();
    out.push(drv.builder.clone());
    proof {
        assert(out.deep_view() =~= before_builder + seq![drv@.builder]);
    }
    let ghost args_dv = drv.args.deep_view();
    let ghost before_args = out.deep_view();
    let mut j: usize = 0;
    proof {
        assert(args_dv.take(0) =~= Seq::<Seq<char>>::empty());
        assert(out.deep_view() =~= before_args + args_dv.take(0));
    }
    while j < drv.args.len()
        invariant
            j <= drv.args@.len(),
            args_dv == drv.args.deep_view(),
            out.deep_view() == before_args + args_dv.take(j as int),
        decreases drv.args@.len() - j,
    {
        let ghost out0 = out.deep_view();
        out.push(drv.args[j].clone());
        proof {
            assert(args_dv[j as int] == drv.args@[j as int]@);
            assert(out.deep_view() =~= out0.push(args_dv[j as int]));
            assert(args_dv.take(j + 1) =~= args_dv.take(j as int).push(args_dv[j as int]));
            assert(before_args + args_dv.take(j as int) + seq![args_dv[j as int]] =~= before_args
                + args_dv.take(j + 1));
        }
        j = j + 1;
    }
    proof {
        assert(args_dv.take(drv.args@.len() as int) =~= args_dv);
        assert(out.deep_view() =~= bwrap_argv(drv@, store_root@, tmp_root@, sh@));
    }
    out
}

} // verus!
