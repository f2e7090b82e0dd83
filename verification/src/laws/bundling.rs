//! What holds of every bundle that is made.

use vstd::prelude::*;

use crate::bundle;
use crate::bundle::{CallView, NotaryEnvironment, OptionsView, Step, StepView};
use crate::path::{Part, PathBuf, PathView};
use crate::platform::Platform;
use crate::text;

verus! {

/// The arguments of a bundle are read from the front: an identity takes the
/// word after it, which must not be blank, and the last one counts; asking
/// for notarization stays; any other word is refused by name; and at the end
/// notarization needs an identity.
pub proof fn lemma_arguments_in_turn(
    args: Seq<Seq<char>>,
    sofar: OptionsView,
    word: Seq<char>,
    rest: Seq<Seq<char>>,
)
    ensures
        ({
            let none = Seq::<Seq<char>>::empty();
            &&& sofar.notarize && sofar.identity is None ==> bundle::parsed(none, sofar) == Err::<
                OptionsView,
                Seq<char>,
            >("--notarize needs --sign: Apple notarizes Developer ID signatures only"@)
            &&& !(sofar.notarize && sofar.identity is None) ==> bundle::parsed(none, sofar) == Ok::<
                OptionsView,
                Seq<char>,
            >(sofar)
            &&& bundle::parsed(seq!["--notarize"@] + rest, sofar) == bundle::parsed(
                rest,
                OptionsView { identity: sofar.identity, notarize: true },
            )
            &&& text::trimmed(word).len() > 0 ==> bundle::parsed(
                seq!["--sign"@, word] + rest,
                sofar,
            ) == bundle::parsed(
                rest,
                OptionsView { identity: Some(word), notarize: sofar.notarize },
            )
            &&& text::trimmed(word).len() == 0 ==> bundle::parsed(
                seq!["--sign"@, word] + rest,
                sofar,
            ) == Err::<OptionsView, Seq<char>>("--sign got an empty identity"@)
            &&& bundle::parsed(seq!["--sign"@], sofar) == Err::<OptionsView, Seq<char>>(
                "--sign needs an identity, e.g. \"Developer ID Application: Name (TEAMID)\""@,
            )
            &&& word != "--sign"@ && word != "--notarize"@ ==> bundle::parsed(
                seq![word] + rest,
                sofar,
            ) == Err::<OptionsView, Seq<char>>("unknown bundle option "@ + word)
        }),
{
    reveal_strlit("--sign");
    reveal_strlit("--notarize");
    assert("--sign"@.len() != "--notarize"@.len());
    let asked = seq!["--notarize"@] + rest;
    assert(asked.skip(1) =~= rest);
    let signed = seq!["--sign"@, word] + rest;
    assert(signed.skip(2) =~= rest);
    assert(signed[1] == word);
    let other = seq![word] + rest;
    assert(other[0] == word);
}

/// The places below a directory.
pub open spec fn under(dir: PathView, words: Seq<Seq<char>>) -> Seq<Part> {
    dir.parts + words.map_values(|word: Seq<char>| Part::Name(vstd::utf8::encode_utf8(word)))
}

/// Everything a bundle is made of lands in `target/bundle` of the workspace.
pub proof fn lemma_places(root: PathView)
    ensures
        ({
            let at = bundle::places(root);
            &&& at.app.parts == under(root, seq!["target"@, "bundle"@, "disktree.app"@])
            &&& at.macos.parts == under(
                root,
                seq!["target"@, "bundle"@, "disktree.app"@, "Contents"@, "MacOS"@],
            )
            &&& at.resources.parts == under(
                root,
                seq!["target"@, "bundle"@, "disktree.app"@, "Contents"@, "Resources"@],
            )
            &&& at.out.parts == under(root, seq!["target"@, "bundle"@])
            &&& at.packaging.parts == under(root, seq!["packaging"@, "macos"@])
        }),
{
    let at = bundle::places(root);
    assert(at.app.parts =~= under(root, seq!["target"@, "bundle"@, "disktree.app"@]));
    assert(at.macos.parts =~= under(
        root,
        seq!["target"@, "bundle"@, "disktree.app"@, "Contents"@, "MacOS"@],
    ));
    assert(at.resources.parts =~= under(
        root,
        seq!["target"@, "bundle"@, "disktree.app"@, "Contents"@, "Resources"@],
    ));
    assert(at.out.parts =~= under(root, seq!["target"@, "bundle"@]));
    assert(at.packaging.parts =~= under(root, seq!["packaging"@, "macos"@]));
}

/// A step that takes away nothing but the app, the iconset or the archive,
/// and submits nothing but the archive, where that was asked for.
pub open spec fn keeps_to(
    step: StepView,
    app: PathView,
    iconset: PathView,
    zip: PathView,
    notarize: bool,
) -> bool {
    match step {
        StepView::Clear(path) => path == app || path == iconset,
        StepView::Replace(path) => path == zip,
        StepView::Notarize(path) => notarize && path == zip,
        _ => true,
    }
}

/// Every one of `steps` does.
pub open spec fn all_keep_to(
    steps: Seq<StepView>,
    app: PathView,
    iconset: PathView,
    zip: PathView,
    notarize: bool,
) -> bool {
    forall|i: int|
        0 <= i < steps.len() ==> keeps_to(#[trigger] steps[i], app, iconset, zip, notarize)
}

proof fn lemma_keep_join(
    a: Seq<StepView>,
    b: Seq<StepView>,
    app: PathView,
    iconset: PathView,
    zip: PathView,
    notarize: bool,
)
    requires
        all_keep_to(a, app, iconset, zip, notarize),
        all_keep_to(b, app, iconset, zip, notarize),
    ensures
        all_keep_to(a + b, app, iconset, zip, notarize),
{
    let all = a + b;
    assert forall|i: int| 0 <= i < all.len() implies keeps_to(
        #[trigger] all[i],
        app,
        iconset,
        zip,
        notarize,
    ) by {
        if i < a.len() {
            assert(all[i] == a[i]);
        } else {
            assert(all[i] == b[i - a.len()]);
        }
    }
}

proof fn lemma_icon_keeps(
    svg: PathView,
    scratch: PathView,
    icns: PathView,
    app: PathView,
    zip: PathView,
    notarize: bool,
)
    ensures
        all_keep_to(
            bundle::icon_steps(svg, scratch, icns),
            app,
            bundle::below(scratch, "AppIcon.iconset"@),
            zip,
            notarize,
        ),
{
}

proof fn lemma_layout_keeps(
    root: PathView,
    cargo: Seq<char>,
    iconset: PathView,
    zip: PathView,
    notarize: bool,
)
    ensures
        all_keep_to(
            bundle::layout_steps(root, cargo),
            bundle::places(root).app,
            iconset,
            zip,
            notarize,
        ),
{
    let steps = bundle::layout_steps(root, cargo);
    let app = bundle::places(root).app;
    assert forall|i: int| 0 <= i < steps.len() implies keeps_to(
        #[trigger] steps[i],
        app,
        iconset,
        zip,
        notarize,
    ) by {
        if i == 1 {
            assert(steps[i] == StepView::Clear(app));
        } else {
            assert(steps[i] !is Clear && steps[i] !is Replace && steps[i] !is Notarize);
        }
    }
}

proof fn lemma_ends_keep(
    options: OptionsView,
    app: PathView,
    iconset: PathView,
    zip: PathView,
)
    ensures
        all_keep_to(
            bundle::sign_steps(app, options.identity),
            app,
            iconset,
            zip,
            options.notarize,
        ),
        all_keep_to(bundle::archive_steps(app, zip), app, iconset, zip, options.notarize),
        options.notarize ==> all_keep_to(
            bundle::notarize_steps(app, zip),
            app,
            iconset,
            zip,
            options.notarize,
        ),
{
}

/// What a bundle clears or replaces is only ever what it makes itself: the
/// app, the iconset and the archive. It is submitted exactly where that was
/// asked for, and then stapled and zipped again; it ends by saying where the
/// app and the archive are.
pub proof fn lemma_bundle_clears_its_own(
    options: OptionsView,
    root: PathView,
    cargo: Seq<char>,
    version: Seq<char>,
    arch: Seq<char>,
)
    ensures
        ({
            let steps = bundle::bundle_steps(options, root, cargo, version, arch);
            let at = bundle::places(root);
            let zip = bundle::below(at.out, "disktree-"@ + version + "-"@ + arch + "-macos.zip"@);
            &&& all_keep_to(
                steps,
                at.app,
                bundle::below(at.out, "AppIcon.iconset"@),
                zip,
                options.notarize,
            )
            &&& steps.last() == (StepView::Report { app: at.app, zip })
            &&& options.notarize ==> steps.len() > 6 && steps.subrange(
                steps.len() - 6,
                steps.len() - 1,
            ) == bundle::notarize_steps(at.app, zip)
        }),
{
    let at = bundle::places(root);
    let zip = bundle::below(at.out, bundle::zip_name(version, arch));
    let iconset = bundle::below(at.out, "AppIcon.iconset"@);
    let svg = bundle::below(at.packaging, "AppIcon.svg"@);
    let icns = bundle::below(at.resources, "AppIcon.icns"@);
    let wanted = options.notarize;
    let a = bundle::layout_steps(root, cargo);
    let b = bundle::icon_steps(svg, at.out, icns);
    let c = bundle::sign_steps(at.app, options.identity);
    let d = bundle::archive_steps(at.app, zip);
    let e: Seq<StepView> = if wanted {
        bundle::notarize_steps(at.app, zip)
    } else {
        seq![]
    };
    let f = seq![StepView::Report { app: at.app, zip }];
    lemma_layout_keeps(root, cargo, iconset, zip, wanted);
    lemma_icon_keeps(svg, at.out, icns, at.app, zip, wanted);
    lemma_ends_keep(options, at.app, iconset, zip);
    lemma_keep_join(a, b, at.app, iconset, zip, wanted);
    lemma_keep_join(a + b, c, at.app, iconset, zip, wanted);
    lemma_keep_join(a + b + c, d, at.app, iconset, zip, wanted);
    lemma_keep_join(a + b + c + d, e, at.app, iconset, zip, wanted);
    lemma_keep_join(a + b + c + d + e, f, at.app, iconset, zip, wanted);
    let steps = bundle::bundle_steps(options, root, cargo, version, arch);
    let front = a + b + c + d;
    assert(steps == front + e + f);
    assert(steps.last() == f[0]);
    if wanted {
        assert(e.len() == 5);
        assert(front.len() >= d.len());
        assert(steps.subrange(steps.len() - 6, steps.len() - 1) =~= e);
    }
}

/// The app is signed before anything of it is zipped: ad hoc without an
/// identity, and else with it, the hardened runtime and a timestamp, which
/// notarization needs; then the signature is checked.
pub proof fn lemma_signed_before_zipped(
    options: OptionsView,
    root: PathView,
    cargo: Seq<char>,
    version: Seq<char>,
    arch: Seq<char>,
)
    ensures
        ({
            let steps = bundle::bundle_steps(options, root, cargo, version, arch);
            let app = bundle::places(root).app;
            let word = |s: Seq<char>| vstd::utf8::encode_utf8(s);
            exists|i: int|
                {
                    &&& 0 <= i < steps.len() - 3
                    &&& #[trigger] steps[i] == StepView::Run(
                        bundle::call(
                            "codesign"@,
                            match options.identity {
                                Some(identity) => seq![
                                    word("--force"@),
                                    word("--timestamp"@),
                                    word("--options"@),
                                    word("runtime"@),
                                    word("--sign"@),
                                    word(identity),
                                    app.text,
                                ],
                                None => seq![
                                    word("--force"@),
                                    word("--sign"@),
                                    word("-"@),
                                    app.text,
                                ],
                            },
                        ),
                    )
                    &&& steps[i + 1] == StepView::Run(
                        bundle::call(
                            "codesign"@,
                            seq![
                                word("--verify"@),
                                word("--strict"@),
                                word("--verbose=2"@),
                                app.text,
                            ],
                        ),
                    )
                    &&& steps[i + 2] is Replace
                    &&& forall|j: int|
                        0 <= j < i + 2 ==> (#[trigger] steps[j]) !is Replace && steps[j]
                            !is Notarize
                }
        }),
{
    let at = bundle::places(root);
    let zip = bundle::below(at.out, bundle::zip_name(version, arch));
    let a = bundle::layout_steps(root, cargo);
    let b = bundle::icon_steps(
        bundle::below(at.packaging, "AppIcon.svg"@),
        at.out,
        bundle::below(at.resources, "AppIcon.icns"@),
    );
    let c = bundle::sign_steps(at.app, options.identity);
    let d = bundle::archive_steps(at.app, zip);
    let steps = bundle::bundle_steps(options, root, cargo, version, arch);
    let n = (a.len() + b.len()) as int;
    assert(steps[n] == c[0]);
    assert(steps[n + 1] == c[1]);
    assert(steps[n + 2] == d[0]);
    assert(steps.len() >= n + c.len() + d.len() + 1);
    assert forall|j: int| 0 <= j < n + 2 implies (#[trigger] steps[j]) !is Replace && steps[j]
        !is Notarize by {
        if j < a.len() {
            assert(steps[j] == a[j]);
        } else if j < n {
            assert(steps[j] == b[j - a.len()]);
        } else {
            assert(steps[j] == c[j - n]);
        }
    }
}

/// An archive is submitted by a keychain profile where one is named, and
/// else by a key file with its id and issuer; where one of those is missing
/// the first that is gets named.
pub proof fn lemma_submitted_by(zip: PathView, env: NotaryEnvironment)
    ensures
        ({
            let made = bundle::notary_call(zip, env);
            let word = |s: Seq<char>| vstd::utf8::encode_utf8(s);
            let missing = |name: Seq<char>|
                "--notarize needs NOTARY_PROFILE, or NOTARY_KEY, NOTARY_KEY_ID and NOTARY_ISSUER; "@
                    + name + " is not set"@;
            let keyed = env.profile is None;
            &&& env.profile matches Some(profile) ==> made == Ok::<CallView, Seq<char>>(
                bundle::call(
                    "xcrun"@,
                    seq![
                        word("notarytool"@),
                        word("submit"@),
                        zip.text,
                        word("--wait"@),
                        word("--keychain-profile"@),
                        word(profile@),
                    ],
                ),
            )
            &&& keyed && env.key is None ==> made == Err::<CallView, Seq<char>>(
                missing("NOTARY_KEY"@),
            )
            &&& keyed && env.key is Some && env.key_id is None ==> made == Err::<
                CallView,
                Seq<char>,
            >(missing("NOTARY_KEY_ID"@))
            &&& keyed && env.key is Some && env.key_id is Some && env.issuer is None ==> made
                == Err::<CallView, Seq<char>>(missing("NOTARY_ISSUER"@))
            &&& keyed && env.key is Some && env.key_id is Some && env.issuer is Some ==> made
                == Ok::<CallView, Seq<char>>(
                bundle::call(
                    "xcrun"@,
                    seq![
                        word("notarytool"@),
                        word("submit"@),
                        zip.text,
                        word("--wait"@),
                        word("--key"@),
                        word(env.key->0@),
                        word("--key-id"@),
                        word(env.key_id->0@),
                        word("--issuer"@),
                        word(env.issuer->0@),
                    ],
                ),
            )
        }),
{
    let word = |s: Seq<char>| vstd::utf8::encode_utf8(s);
    let submit = seq![
        bundle::arg("notarytool"@),
        bundle::arg("submit"@),
        zip.text,
        bundle::arg("--wait"@),
    ];
    if let Some(profile) = env.profile {
        assert(submit + seq![bundle::arg("--keychain-profile"@), bundle::arg(profile@)] =~= seq![
            word("notarytool"@),
            word("submit"@),
            zip.text,
            word("--wait"@),
            word("--keychain-profile"@),
            word(profile@),
        ]);
    } else if env.key is Some && env.key_id is Some && env.issuer is Some {
        assert(submit + seq![
            bundle::arg("--key"@),
            bundle::arg(env.key->0@),
            bundle::arg("--key-id"@),
            bundle::arg(env.key_id->0@),
            bundle::arg("--issuer"@),
            bundle::arg(env.issuer->0@),
        ] =~= seq![
            word("notarytool"@),
            word("submit"@),
            zip.text,
            word("--wait"@),
            word("--key"@),
            word(env.key->0@),
            word("--key-id"@),
            word(env.key_id->0@),
            word("--issuer"@),
            word(env.issuer->0@),
        ]);
    }
}

/// The icon is drawn once for each point size at its own number of pixels
/// and once, for a display of twice the density, at twice that.
pub proof fn lemma_icon_sizes(k: int)
    requires
        0 <= k < 5,
    ensures
        ({
            let points = seq![16u64, 32, 128, 256, 512][k];
            let name = "icon_"@ + text::decimal(points as nat) + "x"@ + text::decimal(
                points as nat,
            );
            &&& bundle::icon_sizes().len() == 10
            &&& bundle::icon_sizes()[2 * k] == (name + ".png"@, points)
            &&& bundle::icon_sizes()[2 * k + 1] == (name + "@2x.png"@, (2 * points) as u64)
        }),
{
    reveal_strlit("icon_");
    reveal_strlit("x");
    reveal_strlit(".png");
    reveal_strlit("@2x.png");
    reveal_strlit("icon_16x16.png");
    reveal_strlit("icon_16x16@2x.png");
    reveal_strlit("icon_32x32.png");
    reveal_strlit("icon_32x32@2x.png");
    reveal_strlit("icon_128x128.png");
    reveal_strlit("icon_128x128@2x.png");
    reveal_strlit("icon_256x256.png");
    reveal_strlit("icon_256x256@2x.png");
    reveal_strlit("icon_512x512.png");
    reveal_strlit("icon_512x512@2x.png");
    reveal_with_fuel(text::decimal, 4);
    let points = seq![16u64, 32, 128, 256, 512][k];
    let digits = text::decimal(points as nat);
    assert(points < 100 ==> digits =~= seq![
        text::digit(points as nat / 10),
        text::digit(points as nat % 10),
    ]);
    assert(points >= 100 ==> digits =~= seq![
        text::digit(points as nat / 100),
        text::digit(points as nat / 10 % 10),
        text::digit(points as nat % 10),
    ]);
    let name = "icon_"@ + digits + "x"@ + digits;
    assert(bundle::icon_sizes()[2 * k].0 =~= name + ".png"@);
    assert(bundle::icon_sizes()[2 * k + 1].0 =~= name + "@2x.png"@);
}

/// The app is built for release from what is locked, in the workspace and
/// into its own target directory; then the old app is cleared, and what was
/// built is copied into the new one, stripped of local symbols; and its
/// property list is filled in from the template and checked.
pub proof fn lemma_laid_out(root: PathView, cargo: Seq<char>)
    ensures
        ({
            let steps = bundle::layout_steps(root, cargo);
            let at = bundle::places(root);
            let word = |s: Seq<char>| vstd::utf8::encode_utf8(s);
            let binary = bundle::below(at.macos, "disktree"@);
            let list = bundle::below(at.contents, "Info.plist"@);
            &&& steps.len() == 8
            &&& steps[0] == StepView::Run(
                CallView {
                    program: cargo,
                    arguments: seq![
                        word("build"@),
                        word("--release"@),
                        word("--locked"@),
                        word("-p"@),
                        word("disktree-app"@),
                        word("--target-dir"@),
                        bundle::below(root, "target"@).text,
                    ],
                    directory: Some(root),
                    deployment_target: Some("11.0"@),
                    quiet: false,
                },
            )
            &&& steps[1] == StepView::Clear(at.app)
            &&& steps[2] == StepView::Create(at.macos)
            &&& steps[3] == StepView::Create(at.resources)
            &&& steps[4] == (StepView::Copy {
                from: bundle::below(
                    bundle::below(bundle::below(root, "target"@), "release"@),
                    "disktree"@,
                ),
                to: binary,
            })
            &&& steps[5] == StepView::Run(bundle::call("strip"@, seq![word("-x"@), binary.text]))
            &&& steps[6] == (StepView::Plist {
                template: bundle::below(at.packaging, "Info.plist.in"@),
                to: list,
            })
            &&& steps[7] == StepView::Run(bundle::call("plutil"@, seq![word("-lint"@), list.text]))
        }),
{
}

/// A bundle is made on macOS alone, and only where its arguments are
/// understood; then by the steps they ask for.
pub proof fn lemma_bundled(
    platform: Platform,
    args: &[String],
    root: &PathBuf,
    cargo: &str,
    version: &str,
    arch: &str,
    made: Result<Vec<Step>, String>,
    template: &str,
    list: String,
)
    ensures
        call_ensures(bundle::bundle, (platform, args, root, cargo, version, arch), made) ==> {
            let asked = bundle::parsed(
                args@.map_values(|arg: String| arg@),
                OptionsView { identity: None, notarize: false },
            );
            &&& made is Ok <==> platform is MacOs && asked is Ok
            &&& !(platform is MacOs) ==> made is Err && made->Err_0@
                == "the app bundle is built on macOS"@
            &&& platform is MacOs && asked is Err ==> made is Err && made->Err_0@ == asked->Err_0
            &&& made matches Ok(steps) ==> steps.deep_view() == bundle::bundle_steps(
                asked->Ok_0,
                root@,
                cargo@,
                version@,
                arch@,
            )
        },
        call_ensures(bundle::plist, (template, version), list) ==> list@ == text::replaced(
            template@,
            "@VERSION@"@,
            version@,
        ),
{
    assert(bundle::words_of(args@) =~= args@.map_values(|arg: String| arg@));
}

/// What is said of a step on the disk that failed: what could not be done,
/// to which path, and why.
pub proof fn lemma_step_failed(step: &Step, error: &str, says: Option<String>)
    requires
        call_ensures(bundle::step_failed, (step, error), says),
    ensures
        match step@ {
            StepView::Clear(path) => says is Some && says->0@ == "cannot clear "@ + text::shown(
                path.text,
            ) + ": "@ + error@,
            StepView::Create(path) => says is Some && says->0@ == "cannot create "@ + text::shown(
                path.text,
            ) + ": "@ + error@,
            StepView::Copy { from, to } => says is Some && says->0@ == "cannot copy "@
                + text::shown(from.text) + " to "@ + text::shown(to.text) + ": "@ + error@,
            StepView::Replace(path) => says is Some && says->0@ == "cannot replace "@
                + text::shown(path.text) + ": "@ + error@,
            StepView::Plist { to, .. } => says is Some && says->0@ == "cannot write "@
                + text::shown(to.text) + ": "@ + error@,
            _ => says is None,
        },
{
}

/// The icon is drawn into a fresh iconset, one image after the other, each
/// as a square of its own number of pixels and without chatter, and then
/// packed into one file.
pub proof fn lemma_icon_drawn(svg: PathView, scratch: PathView, icns: PathView, k: int)
    requires
        0 <= k < 10,
    ensures
        ({
            let steps = bundle::icon_steps(svg, scratch, icns);
            let iconset = bundle::below(scratch, "AppIcon.iconset"@);
            let (name, pixels) = bundle::icon_sizes()[k];
            let word = |s: Seq<char>| vstd::utf8::encode_utf8(s);
            &&& steps.len() == 13
            &&& steps[0] == StepView::Clear(iconset)
            &&& steps[1] == StepView::Create(iconset)
            &&& steps[k + 2] == StepView::Run(
                CallView {
                    program: "sips"@,
                    arguments: seq![
                        word("-s"@),
                        word("format"@),
                        word("png"@),
                        word("-z"@),
                        word(text::decimal(pixels as nat)),
                        word(text::decimal(pixels as nat)),
                        svg.text,
                        word("--out"@),
                        bundle::below(iconset, name).text,
                    ],
                    directory: None,
                    deployment_target: None,
                    quiet: true,
                },
            )
            &&& steps[12] == StepView::Run(
                CallView {
                    program: "iconutil"@,
                    arguments: seq![
                        word("-c"@),
                        word("icns"@),
                        iconset.text,
                        word("-o"@),
                        icns.text,
                    ],
                    directory: None,
                    deployment_target: None,
                    quiet: false,
                },
            )
        }),
{
}

/// The app is zipped whole and in place of an earlier archive; one that is
/// notarized is submitted, stapled, zipped again, and assessed.
pub proof fn lemma_zipped(app: PathView, zip: PathView)
    ensures
        ({
            let word = |s: Seq<char>| vstd::utf8::encode_utf8(s);
            let ditto = StepView::Run(
                bundle::call(
                    "ditto"@,
                    seq![
                        word("-c"@),
                        word("-k"@),
                        word("--sequesterRsrc"@),
                        word("--keepParent"@),
                        app.text,
                        zip.text,
                    ],
                ),
            );
            &&& bundle::archive_steps(app, zip) == seq![StepView::Replace(zip), ditto]
            &&& bundle::notarize_steps(app, zip) == seq![
                StepView::Notarize(zip),
                StepView::Run(
                    bundle::call("xcrun"@, seq![word("stapler"@), word("staple"@), app.text]),
                ),
                StepView::Replace(zip),
                ditto,
                StepView::Run(
                    bundle::call(
                        "spctl"@,
                        seq![
                            word("--assess"@),
                            word("--type"@),
                            word("execute"@),
                            word("-vv"@),
                            app.text,
                        ],
                    ),
                ),
            ]
            &&& ditto->Run_0.directory is None
            &&& ditto->Run_0.deployment_target is None
            &&& !ditto->Run_0.quiet
        }),
{
    let word = |s: Seq<char>| vstd::utf8::encode_utf8(s);
    let ditto = StepView::Run(
        bundle::call(
            "ditto"@,
            seq![
                word("-c"@),
                word("-k"@),
                word("--sequesterRsrc"@),
                word("--keepParent"@),
                app.text,
                zip.text,
            ],
        ),
    );
    assert(bundle::archive_steps(app, zip) =~= seq![StepView::Replace(zip), ditto]);
    assert(bundle::notarize_steps(app, zip) =~= seq![
        StepView::Notarize(zip),
        StepView::Run(bundle::call("xcrun"@, seq![word("stapler"@), word("staple"@), app.text])),
        StepView::Replace(zip),
        ditto,
        StepView::Run(
            bundle::call(
                "spctl"@,
                seq![word("--assess"@), word("--type"@), word("execute"@), word("-vv"@), app.text],
            ),
        ),
    ]);
}

} // verus!
