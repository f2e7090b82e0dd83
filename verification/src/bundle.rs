//! The macOS app, from a release build: what is asked for, and the steps
//! that make it.
//!
//! Plain Apple tools and nothing to install: `sips` and `iconutil` draw the
//! icon from its SVG, `codesign` signs, `ditto` zips the way Finder does
//! (keeping the signature's extended attributes), and `notarytool` and
//! `stapler` notarize. Everything lands in `target/bundle/`.
//!
//! Signing is ad hoc unless an identity is given. An ad-hoc app runs on the
//! Mac that built it; a downloaded one needs a Developer ID signature and
//! notarization, or Gatekeeper stops it.

use vstd::prelude::*;

use crate::path;
use crate::path::{Part, PathBuf, PathView};
use crate::platform::Platform;
use crate::text;

verus! {

pub const APP: &'static str = "disktree.app";

pub const EXECUTABLE: &'static str = "disktree";

/// What the binary is built for at least; the minimum system version in the
/// property list says the same.
pub const DEPLOYMENT_TARGET: &'static str = "11.0";

// ---------------------------------------------------------------------
// What is asked for.
// ---------------------------------------------------------------------

/// What a bundle was asked to be.
#[derive(Debug)]
pub struct Options {
    /// A `Developer ID Application: ...` identity from the keychain; ad hoc
    /// when absent.
    pub identity: Option<String>,
    pub notarize: bool,
}

/// What [`Options`] stand for.
pub struct OptionsView {
    pub identity: Option<Seq<char>>,
    pub notarize: bool,
}

impl View for Options {
    type V = OptionsView;

    open spec fn view(&self) -> OptionsView {
        OptionsView {
            identity: match self.identity {
                Some(identity) => Some(identity@),
                None => None,
            },
            notarize: self.notarize,
        }
    }
}

/// What the arguments ask for, on top of `sofar`.
pub open spec fn parsed(args: Seq<Seq<char>>, sofar: OptionsView) -> Result<OptionsView, Seq<char>>
    decreases args.len(),
{
    if args.len() == 0 {
        if sofar.notarize && sofar.identity is None {
            Err("--notarize needs --sign: Apple notarizes Developer ID signatures only"@)
        } else {
            Ok(sofar)
        }
    } else if args[0] == "--sign"@ {
        if args.len() < 2 {
            Err(
                "--sign needs an identity, e.g. \"Developer ID Application: Name (TEAMID)\""@,
            )
        } else if text::trimmed(args[1]).len() == 0 {
            Err("--sign got an empty identity"@)
        } else {
            parsed(args.skip(2), OptionsView { identity: Some(args[1]), ..sofar })
        }
    } else if args[0] == "--notarize"@ {
        parsed(args.skip(1), OptionsView { notarize: true, ..sofar })
    } else {
        Err("unknown bundle option "@ + args[0])
    }
}

/// Nothing asked for.
pub open spec fn no_options() -> OptionsView {
    OptionsView { identity: None, notarize: false }
}

/// What the words stand for.
pub open spec fn words_of(args: Seq<String>) -> Seq<Seq<char>> {
    args.map_values(|arg: String| arg@)
}

/// Read the arguments of a bundle.
pub fn parse(args: &[String]) -> (r: Result<Options, String>)
    ensures
        match r {
            Ok(options) => parsed(words_of(args@), no_options()) == Ok::<OptionsView, Seq<char>>(
                options@,
            ),
            Err(reason) => parsed(words_of(args@), no_options()) == Err::<OptionsView, Seq<char>>(
                reason@,
            ),
        },
{
    let ghost all = words_of(args@);
    let ghost result = parsed(all, no_options());
    let sign = "--sign".to_owned();
    let notarize = "--notarize".to_owned();
    let mut options = Options { identity: None, notarize: false };
    let mut i: usize = 0;
    assert(all.skip(0) =~= all);
    while i < args.len()
        invariant
            i <= args@.len(),
            args@.len() == args.len(),
            all == words_of(args@),
            result == parsed(words_of(args@), no_options()),
            sign@ == "--sign"@,
            notarize@ == "--notarize"@,
            parsed(all.skip(i as int), options@) == result,
        decreases args@.len() - i,
    {
        let ghost rest = all.skip(i as int);
        assert(rest[0] == args@[i as int]@);
        if args[i] == sign {
            if args.len() - i < 2 {
                return Err(
                    "--sign needs an identity, e.g. \"Developer ID Application: Name (TEAMID)\"".to_owned(),
                );
            }
            let identity = &args[i + 1];
            assert(rest[1] == identity@);
            // An empty identity is what CI passes when a secret is missing;
            // codesign would fail on it without saying why.
            let letters = text::chars_of(identity.as_str());
            if text::trim(letters.as_slice()).len() == 0 {
                return Err("--sign got an empty identity".to_owned());
            }
            options.identity = Some(identity.clone());
            assert(rest.skip(2) =~= all.skip(i + 2));
            i += 2;
        } else if args[i] == notarize {
            options.notarize = true;
            assert(rest.skip(1) =~= all.skip(i + 1));
            i += 1;
        } else {
            let mut reason = "unknown bundle option ".to_owned();
            reason.append(args[i].as_str());
            return Err(reason);
        }
    }
    assert(all.skip(i as int) =~= Seq::<Seq<char>>::empty());
    if options.notarize && options.identity.is_none() {
        return Err(
            "--notarize needs --sign: Apple notarizes Developer ID signatures only".to_owned(),
        );
    }
    Ok(options)
}

/// Whatever is asked for, an app is notarized only when it is signed with
/// an identity, and no identity is blank.
pub proof fn lemma_notarized_is_signed(args: Seq<Seq<char>>, sofar: OptionsView)
    requires
        sofar.identity matches Some(identity) ==> text::trimmed(identity).len() > 0,
    ensures
        parsed(args, sofar) matches Ok(options) ==> {
            &&& options.notarize ==> options.identity is Some
            &&& options.identity matches Some(identity) ==> text::trimmed(identity).len() > 0
        },
    decreases args.len(),
{
    if args.len() > 0 {
        if args[0] == "--sign"@ {
            if args.len() >= 2 && text::trimmed(args[1]).len() > 0 {
                lemma_notarized_is_signed(
                    args.skip(2),
                    OptionsView { identity: Some(args[1]), ..sofar },
                );
            }
        } else if args[0] == "--notarize"@ {
            lemma_notarized_is_signed(args.skip(1), OptionsView { notarize: true, ..sofar });
        }
    }
}

// ---------------------------------------------------------------------
// Calling tools.
// ---------------------------------------------------------------------

/// A tool to run.
#[derive(Debug)]
pub struct Call {
    pub program: String,
    /// What comes after the program's name, in order.
    pub arguments: Vec<Vec<u8>>,
    /// Where it runs, if not where the caller does.
    pub directory: Option<PathBuf>,
    /// The value of `MACOSX_DEPLOYMENT_TARGET`, if it is set for it.
    pub deployment_target: Option<String>,
    /// Whether what it prints is left out; its errors still show.
    pub quiet: bool,
}

/// What a [`Call`] stands for.
pub struct CallView {
    pub program: Seq<char>,
    pub arguments: Seq<Seq<u8>>,
    pub directory: Option<PathView>,
    pub deployment_target: Option<Seq<char>>,
    pub quiet: bool,
}

/// The bytes of each of `words`.
pub open spec fn bytes_of(words: Seq<Vec<u8>>) -> Seq<Seq<u8>> {
    words.map_values(|word: Vec<u8>| word@)
}

impl View for Call {
    type V = CallView;

    open spec fn view(&self) -> CallView {
        CallView {
            program: self.program@,
            arguments: bytes_of(self.arguments@),
            directory: match self.directory {
                Some(directory) => Some(directory@),
                None => None,
            },
            deployment_target: match self.deployment_target {
                Some(target) => Some(target@),
                None => None,
            },
            quiet: self.quiet,
        }
    }
}

/// A word as an argument.
pub open spec fn arg(word: Seq<char>) -> Seq<u8> {
    vstd::utf8::encode_utf8(word)
}

/// A plain call.
pub open spec fn call(program: Seq<char>, arguments: Seq<Seq<u8>>) -> CallView {
    CallView { program, arguments, directory: None, deployment_target: None, quiet: false }
}

impl Call {
    /// A call without arguments.
    fn new(program: &str) -> (r: Call)
        ensures
            r@ == call(program@, seq![]),
    {
        let call = Call {
            program: program.to_owned(),
            arguments: Vec::new(),
            directory: None,
            deployment_target: None,
            quiet: false,
        };
        assert(call@.arguments =~= Seq::<Seq<u8>>::empty());
        call
    }

    /// The call with one more word.
    fn word(self, word: &str) -> (r: Call)
        ensures
            r@ == (CallView { arguments: self@.arguments.push(arg(word@)), ..self@ }),
    {
        let mut call = self;
        let ghost before = call@.arguments;
        call.arguments.push(vstd::slice::slice_to_vec(word.as_bytes()));
        assert(call@.arguments =~= before.push(arg(word@)));
        call
    }

    /// The call with a path as one more argument.
    fn path(self, path: &PathBuf) -> (r: Call)
        ensures
            r@ == (CallView { arguments: self@.arguments.push(path@.text), ..self@ }),
    {
        let mut call = self;
        let ghost before = call@.arguments;
        call.arguments.push(path::copy_bytes(&path.text));
        assert(call@.arguments =~= before.push(path@.text));
        call
    }
}

// ---------------------------------------------------------------------
// Steps.
// ---------------------------------------------------------------------

/// One step of making a bundle.
#[derive(Debug)]
pub enum Step {
    /// Run a tool.
    Run(Call),
    /// Remove this directory, with all that is in it, where it is there.
    Clear(PathBuf),
    /// Create this directory, and those above it.
    Create(PathBuf),
    Copy { from: PathBuf, to: PathBuf },
    /// Fill the property list template in with the version: see [`plist`].
    Plist { template: PathBuf, to: PathBuf },
    /// Remove this file, where it is there.
    Replace(PathBuf),
    /// Submit this archive and wait for Apple's answer: see
    /// [`notarize_call`].
    Notarize(PathBuf),
    /// Say where the bundle and the archive are.
    Report { app: PathBuf, zip: PathBuf },
}

/// What a [`Step`] stands for.
pub enum StepView {
    Run(CallView),
    Clear(PathView),
    Create(PathView),
    Copy { from: PathView, to: PathView },
    Plist { template: PathView, to: PathView },
    Replace(PathView),
    Notarize(PathView),
    Report { app: PathView, zip: PathView },
}

impl View for Step {
    type V = StepView;

    open spec fn view(&self) -> StepView {
        match *self {
            Step::Run(call) => StepView::Run(call@),
            Step::Clear(path) => StepView::Clear(path@),
            Step::Create(path) => StepView::Create(path@),
            Step::Copy { from, to } => StepView::Copy { from: from@, to: to@ },
            Step::Plist { template, to } => StepView::Plist { template: template@, to: to@ },
            Step::Replace(path) => StepView::Replace(path@),
            Step::Notarize(path) => StepView::Notarize(path@),
            Step::Report { app, zip } => StepView::Report { app: app@, zip: zip@ },
        }
    }
}

impl DeepView for Step {
    type V = StepView;

    open spec fn deep_view(&self) -> StepView {
        self@
    }
}

/// The entry called `name` in `dir`.
pub open spec fn below(dir: PathView, name: Seq<char>) -> PathView {
    path::joined(Platform::MacOs, dir, seq![Part::Name(arg(name))])
}

/// The entry called `name` in `dir`.
fn entry(dir: &PathBuf, name: &str) -> (r: PathBuf)
    ensures
        r@ == below(dir@, name@),
{
    dir.join_name(Platform::MacOs, name.as_bytes())
}

/// Add a step.
fn push_step(steps: &mut Vec<Step>, step: Step)
    ensures
        final(steps).deep_view() == old(steps).deep_view().push(step@),
{
    let ghost before = steps.deep_view();
    let ghost view = step@;
    steps.push(step);
    assert(steps.deep_view() =~= before.push(view));
}

/// Add more steps.
fn push_steps(steps: &mut Vec<Step>, more: Vec<Step>)
    ensures
        final(steps).deep_view() == old(steps).deep_view() + more.deep_view(),
{
    let ghost a = steps.deep_view();
    let ghost b = more.deep_view();
    let mut more = more;
    steps.append(&mut more);
    assert(steps.deep_view() =~= a + b);
}

/// The images of the icon, and how many pixels each is wide: each point size
/// at 1x and 2x.
pub open spec fn icon_sizes() -> Seq<(Seq<char>, u64)> {
    seq![
        ("icon_16x16.png"@, 16),
        ("icon_16x16@2x.png"@, 32),
        ("icon_32x32.png"@, 32),
        ("icon_32x32@2x.png"@, 64),
        ("icon_128x128.png"@, 128),
        ("icon_128x128@2x.png"@, 256),
        ("icon_256x256.png"@, 256),
        ("icon_256x256@2x.png"@, 512),
        ("icon_512x512.png"@, 512),
        ("icon_512x512@2x.png"@, 1024),
    ]
}

/// Draw one image of the icon.
pub open spec fn image_step(
    svg: PathView,
    iconset: PathView,
    name: Seq<char>,
    pixels: u64,
) -> StepView {
    StepView::Run(
        CallView {
            quiet: true,
            ..call(
                "sips"@,
                seq![
                    arg("-s"@),
                    arg("format"@),
                    arg("png"@),
                    arg("-z"@),
                    arg(text::decimal(pixels as nat)),
                    arg(text::decimal(pixels as nat)),
                    svg.text,
                    arg("--out"@),
                    below(iconset, name).text,
                ],
            )
        },
    )
}

/// The steps that draw the icon.
pub open spec fn icon_steps(svg: PathView, scratch: PathView, icns: PathView) -> Seq<StepView> {
    let iconset = below(scratch, "AppIcon.iconset"@);
    seq![StepView::Clear(iconset), StepView::Create(iconset)] + icon_sizes().map_values(
        |size: (Seq<char>, u64)| image_step(svg, iconset, size.0, size.1),
    ) + seq![
        StepView::Run(
            call("iconutil"@, seq![arg("-c"@), arg("icns"@), iconset.text, arg("-o"@), icns.text]),
        ),
    ]
}

/// `AppIcon.icns` from the SVG, through an iconset of every size.
pub fn icon(svg: &PathBuf, scratch: &PathBuf, icns: &PathBuf) -> (r: Vec<Step>)
    ensures
        r.deep_view() == icon_steps(svg@, scratch@, icns@),
{
    let iconset = entry(scratch, "AppIcon.iconset");
    let mut steps: Vec<Step> = Vec::new();
    assert(steps.deep_view() =~= Seq::<StepView>::empty());
    push_step(&mut steps, Step::Clear(iconset.clone()));
    push_step(&mut steps, Step::Create(iconset.clone()));
    let ghost lead = seq![StepView::Clear(iconset@), StepView::Create(iconset@)];
    assert(steps.deep_view() =~= lead);
    let names: Vec<&'static str> = vec![
        "icon_16x16.png",
        "icon_16x16@2x.png",
        "icon_32x32.png",
        "icon_32x32@2x.png",
        "icon_128x128.png",
        "icon_128x128@2x.png",
        "icon_256x256.png",
        "icon_256x256@2x.png",
        "icon_512x512.png",
        "icon_512x512@2x.png",
    ];
    let pixels: Vec<u64> = vec![16, 32, 32, 64, 128, 256, 256, 512, 512, 1024];
    let ghost all = icon_sizes();
    let ghost f = |size: (Seq<char>, u64)| image_step(svg@, iconset@, size.0, size.1);
    assert forall|k: int| 0 <= k < all.len() implies all[k] == (names@[k]@, pixels@[k]) by {}
    assert(lead + all.take(0).map_values(f) =~= lead);
    let mut i: usize = 0;
    while i < names.len()
        invariant
            i <= names@.len(),
            names@.len() == all.len(),
            pixels@.len() == all.len(),
            all == icon_sizes(),
            forall|k: int|
                0 <= k < all.len() ==> #[trigger] all[k] == (names@[k]@, pixels@[k]),
            f == (|size: (Seq<char>, u64)| image_step(svg@, iconset@, size.0, size.1)),
            steps.deep_view() == lead + all.take(i as int).map_values(f),
        decreases names@.len() - i,
    {
        let ghost before = steps.deep_view();
        let mut width = String::new();
        text::push_decimal(&mut width, pixels[i]);
        assert(width@ =~= text::decimal(pixels@[i as int] as nat));
        let image = entry(&iconset, names[i]);
        let mut sips = Call::new("sips").word("-s").word("format").word("png").word("-z").word(
            width.as_str(),
        ).word(width.as_str()).path(svg).word("--out").path(&image);
        sips.quiet = true;
        assert(all[i as int] == (names@[i as int]@, pixels@[i as int]));
        assert(StepView::Run(sips@) == f(all[i as int])) by {
            assert(sips@.arguments =~= seq![
                arg("-s"@),
                arg("format"@),
                arg("png"@),
                arg("-z"@),
                arg(width@),
                arg(width@),
                svg@.text,
                arg("--out"@),
                image@.text,
            ]);
        }
        push_step(&mut steps, Step::Run(sips));
        assert(lead + all.take(i + 1).map_values(f) =~= before.push(f(all[i as int])));
        i += 1;
    }
    assert(all.take(all.len() as int) =~= all);
    let iconutil = Call::new("iconutil").word("-c").word("icns").path(&iconset).word("-o").path(
        icns,
    );
    assert(iconutil@.arguments =~= seq![
        arg("-c"@),
        arg("icns"@),
        iconset@.text,
        arg("-o"@),
        icns@.text,
    ]);
    push_step(&mut steps, Step::Run(iconutil));
    assert(steps.deep_view() =~= icon_steps(svg@, scratch@, icns@));
    steps
}

/// The steps that sign the bundle and check that the signature holds.
pub open spec fn sign_steps(app: PathView, identity: Option<Seq<char>>) -> Seq<StepView> {
    seq![
        StepView::Run(
            call(
                "codesign"@,
                match identity {
                    Some(identity) => seq![
                        arg("--force"@),
                        arg("--timestamp"@),
                        arg("--options"@),
                        arg("runtime"@),
                        arg("--sign"@),
                        arg(identity),
                        app.text,
                    ],
                    None => seq![arg("--force"@), arg("--sign"@), arg("-"@), app.text],
                },
            ),
        ),
        StepView::Run(
            call(
                "codesign"@,
                seq![arg("--verify"@), arg("--strict"@), arg("--verbose=2"@), app.text],
            ),
        ),
    ]
}

/// Sign the bundle, then check the signature holds.
///
/// A real identity gets the hardened runtime and a secure timestamp, both of
/// which notarization requires. No entitlements: the app needs none of what
/// the hardened runtime withholds.
pub fn sign(app: &PathBuf, identity: Option<&String>) -> (r: Vec<Step>)
    ensures
        r.deep_view() == sign_steps(
            app@,
            match identity {
                Some(identity) => Some(identity@),
                None => None,
            },
        ),
{
    let force = Call::new("codesign").word("--force");
    let signing = match identity {
        Some(identity) => force.word("--timestamp").word("--options").word("runtime").word(
            "--sign",
        ).word(identity.as_str()).path(app),
        None => force.word("--sign").word("-").path(app),
    };
    assert(signing@.arguments =~= match identity {
        Some(identity) => seq![
            arg("--force"@),
            arg("--timestamp"@),
            arg("--options"@),
            arg("runtime"@),
            arg("--sign"@),
            arg(identity@),
            app@.text,
        ],
        None => seq![arg("--force"@), arg("--sign"@), arg("-"@), app@.text],
    });
    let verify = Call::new("codesign").word("--verify").word("--strict").word("--verbose=2").path(
        app,
    );
    assert(verify@.arguments =~= seq![
        arg("--verify"@),
        arg("--strict"@),
        arg("--verbose=2"@),
        app@.text,
    ]);
    let mut steps: Vec<Step> = Vec::new();
    steps.push(Step::Run(signing));
    steps.push(Step::Run(verify));
    assert(steps.deep_view() =~= sign_steps(
        app@,
        match identity {
            Some(identity) => Some(identity@),
            None => None,
        },
    ));
    steps
}

/// The steps that zip the bundle, in place of an earlier archive.
pub open spec fn archive_steps(app: PathView, zip: PathView) -> Seq<StepView> {
    seq![
        StepView::Replace(zip),
        StepView::Run(
            call(
                "ditto"@,
                seq![
                    arg("-c"@),
                    arg("-k"@),
                    arg("--sequesterRsrc"@),
                    arg("--keepParent"@),
                    app.text,
                    zip.text,
                ],
            ),
        ),
    ]
}

/// Zip the bundle, in place of an earlier archive.
pub fn archive(app: &PathBuf, zip: &PathBuf) -> (r: Vec<Step>)
    ensures
        r.deep_view() == archive_steps(app@, zip@),
{
    let ditto = Call::new("ditto").word("-c").word("-k").word("--sequesterRsrc").word(
        "--keepParent",
    ).path(app).path(zip);
    assert(ditto@.arguments =~= seq![
        arg("-c"@),
        arg("-k"@),
        arg("--sequesterRsrc"@),
        arg("--keepParent"@),
        app@.text,
        zip@.text,
    ]);
    let mut steps: Vec<Step> = Vec::new();
    steps.push(Step::Replace(zip.clone()));
    steps.push(Step::Run(ditto));
    assert(steps.deep_view() =~= archive_steps(app@, zip@));
    steps
}

// ---------------------------------------------------------------------
// Notarizing.
// ---------------------------------------------------------------------

/// The credentials in the environment, never on the command line, so they
/// stay out of shell history and CI logs: a keychain profile, or a key file
/// with its id and issuer.
#[derive(Debug)]
pub struct NotaryEnvironment {
    /// `NOTARY_PROFILE`.
    pub profile: Option<String>,
    /// `NOTARY_KEY`.
    pub key: Option<String>,
    /// `NOTARY_KEY_ID`.
    pub key_id: Option<String>,
    /// `NOTARY_ISSUER`.
    pub issuer: Option<String>,
}

/// What is said when `name` is missing.
pub open spec fn notary_missing(name: Seq<char>) -> Seq<char> {
    "--notarize needs NOTARY_PROFILE, or NOTARY_KEY, NOTARY_KEY_ID and NOTARY_ISSUER; "@ + name
        + " is not set"@
}

/// The call that submits the archive, or what is missing for it.
pub open spec fn notary_call(zip: PathView, env: NotaryEnvironment) -> Result<CallView, Seq<char>> {
    let submit = seq![arg("notarytool"@), arg("submit"@), zip.text, arg("--wait"@)];
    match env.profile {
        Some(profile) => Ok(
            call("xcrun"@, submit + seq![arg("--keychain-profile"@), arg(profile@)]),
        ),
        None => match env.key {
            None => Err(notary_missing("NOTARY_KEY"@)),
            Some(key) => match env.key_id {
                None => Err(notary_missing("NOTARY_KEY_ID"@)),
                Some(key_id) => match env.issuer {
                    None => Err(notary_missing("NOTARY_ISSUER"@)),
                    Some(issuer) => Ok(
                        call(
                            "xcrun"@,
                            submit + seq![
                                arg("--key"@),
                                arg(key@),
                                arg("--key-id"@),
                                arg(key_id@),
                                arg("--issuer"@),
                                arg(issuer@),
                            ],
                        ),
                    ),
                },
            },
        },
    }
}

/// What is said when `name` is missing.
fn say_missing(name: &str) -> (r: String)
    ensures
        r@ == notary_missing(name@),
{
    let mut reason = "--notarize needs NOTARY_PROFILE, or NOTARY_KEY, NOTARY_KEY_ID and NOTARY_ISSUER; ".to_owned();
    reason.append(name);
    reason.append(" is not set");
    reason
}

/// Submit `zip` and wait for Apple's answer.
pub fn notarize_call(zip: &PathBuf, env: &NotaryEnvironment) -> (r: Result<Call, String>)
    ensures
        match r {
            Ok(submission) => notary_call(zip@, *env) == Ok::<CallView, Seq<char>>(submission@),
            Err(reason) => notary_call(zip@, *env) == Err::<CallView, Seq<char>>(reason@),
        },
{
    let submit = Call::new("xcrun").word("notarytool").word("submit").path(zip).word("--wait");
    let ghost lead = seq![arg("notarytool"@), arg("submit"@), zip@.text, arg("--wait"@)];
    assert(submit@.arguments =~= lead);
    match &env.profile {
        Some(profile) => {
            let submission = submit.word("--keychain-profile").word(profile.as_str());
            assert(submission@.arguments =~= lead + seq![
                arg("--keychain-profile"@),
                arg(profile@),
            ]);
            Ok(submission)
        },
        None => {
            let key = match &env.key {
                None => {
                    return Err(say_missing("NOTARY_KEY"));
                },
                Some(key) => key,
            };
            let key_id = match &env.key_id {
                None => {
                    return Err(say_missing("NOTARY_KEY_ID"));
                },
                Some(key_id) => key_id,
            };
            let issuer = match &env.issuer {
                None => {
                    return Err(say_missing("NOTARY_ISSUER"));
                },
                Some(issuer) => issuer,
            };
            let submission = submit.word("--key").word(key.as_str()).word("--key-id").word(
                key_id.as_str(),
            ).word("--issuer").word(issuer.as_str());
            assert(submission@.arguments =~= lead + seq![
                arg("--key"@),
                arg(key@),
                arg("--key-id"@),
                arg(key_id@),
                arg("--issuer"@),
                arg(issuer@),
            ]);
            Ok(submission)
        },
    }
}

// ---------------------------------------------------------------------
// The whole bundle.
// ---------------------------------------------------------------------

/// The property list for `version`: the template with every `@VERSION@`
/// filled in.
pub fn plist(template: &str, version: &str) -> (r: String)
    ensures
        r@ == text::replaced(template@, "@VERSION@"@, version@),
{
    let all = text::chars_of(template);
    let mark = text::chars_of("@VERSION@");
    let with = text::chars_of(version);
    text::string_of(text::replace(all.as_slice(), mark.as_slice(), with.as_slice()).as_slice())
}

/// Where a bundle is made.
pub struct Places {
    pub target: PathView,
    pub out: PathView,
    pub app: PathView,
    pub contents: PathView,
    pub macos: PathView,
    pub resources: PathView,
    pub packaging: PathView,
}

/// Where a bundle is made, in the workspace at `root`.
pub open spec fn places(root: PathView) -> Places {
    let target = below(root, "target"@);
    let out = below(target, "bundle"@);
    let app = below(out, APP@);
    let contents = below(app, "Contents"@);
    Places {
        target,
        out,
        app,
        contents,
        macos: below(contents, "MacOS"@),
        resources: below(contents, "Resources"@),
        packaging: below(below(root, "packaging"@), "macos"@),
    }
}

/// The name of the archive.
pub open spec fn zip_name(version: Seq<char>, arch: Seq<char>) -> Seq<char> {
    "disktree-"@ + version + "-"@ + arch + "-macos.zip"@
}

/// The steps before the icon: build, clear, and lay out the bundle.
pub open spec fn layout_steps(root: PathView, cargo: Seq<char>) -> Seq<StepView> {
    let at = places(root);
    let binary = below(at.macos, EXECUTABLE@);
    let plist = below(at.contents, "Info.plist"@);
    seq![
        StepView::Run(
            CallView {
                program: cargo,
                arguments: seq![
                    arg("build"@),
                    arg("--release"@),
                    arg("--locked"@),
                    arg("-p"@),
                    arg("disktree-app"@),
                    arg("--target-dir"@),
                    at.target.text,
                ],
                directory: Some(root),
                deployment_target: Some(DEPLOYMENT_TARGET@),
                quiet: false,
            },
        ),
        StepView::Clear(at.app),
        StepView::Create(at.macos),
        StepView::Create(at.resources),
        StepView::Copy {
            from: below(below(at.target, "release"@), EXECUTABLE@),
            to: binary,
        },
        StepView::Run(call("strip"@, seq![arg("-x"@), binary.text])),
        StepView::Plist { template: below(at.packaging, "Info.plist.in"@), to: plist },
        StepView::Run(call("plutil"@, seq![arg("-lint"@), plist.text])),
    ]
}

/// The steps that notarize the bundle. The ticket is stapled to the app, so
/// it is zipped again: a zip itself cannot carry one.
pub open spec fn notarize_steps(app: PathView, zip: PathView) -> Seq<StepView> {
    seq![
        StepView::Notarize(zip),
        StepView::Run(call("xcrun"@, seq![arg("stapler"@), arg("staple"@), app.text])),
    ] + archive_steps(app, zip) + seq![
        StepView::Run(
            call(
                "spctl"@,
                seq![arg("--assess"@), arg("--type"@), arg("execute"@), arg("-vv"@), app.text],
            ),
        ),
    ]
}

/// The steps that make the bundle asked for.
pub open spec fn bundle_steps(
    options: OptionsView,
    root: PathView,
    cargo: Seq<char>,
    version: Seq<char>,
    arch: Seq<char>,
) -> Seq<StepView> {
    let at = places(root);
    let zip = below(at.out, zip_name(version, arch));
    layout_steps(root, cargo) + icon_steps(
        below(at.packaging, "AppIcon.svg"@),
        at.out,
        below(at.resources, "AppIcon.icns"@),
    ) + sign_steps(at.app, options.identity) + archive_steps(at.app, zip) + (if options.notarize {
        notarize_steps(at.app, zip)
    } else {
        seq![]
    }) + seq![StepView::Report { app: at.app, zip }]
}

/// The steps before the icon.
fn layout(root: &PathBuf, cargo: &str) -> (r: Vec<Step>)
    ensures
        r.deep_view() == layout_steps(root@, cargo@),
{
    let target = entry(root, "target");
    let app = entry(&entry(&target, "bundle"), APP);
    let contents = entry(&app, "Contents");
    let macos = entry(&contents, "MacOS");
    let resources = entry(&contents, "Resources");
    let binary = entry(&macos, EXECUTABLE);
    let list = entry(&contents, "Info.plist");
    let packaging = entry(&entry(root, "packaging"), "macos");
    let mut build = Call::new(cargo).word("build").word("--release").word("--locked").word(
        "-p",
    ).word("disktree-app").word("--target-dir").path(&target);
    build.directory = Some(root.clone());
    build.deployment_target = Some(DEPLOYMENT_TARGET.to_owned());
    assert(build@.arguments =~= seq![
        arg("build"@),
        arg("--release"@),
        arg("--locked"@),
        arg("-p"@),
        arg("disktree-app"@),
        arg("--target-dir"@),
        target@.text,
    ]);
    let strip = Call::new("strip").word("-x").path(&binary);
    assert(strip@.arguments =~= seq![arg("-x"@), binary@.text]);
    let lint = Call::new("plutil").word("-lint").path(&list);
    assert(lint@.arguments =~= seq![arg("-lint"@), list@.text]);
    let mut steps: Vec<Step> = Vec::new();
    steps.push(Step::Run(build));
    // Only ever the bundle made here, never anything else in target/.
    steps.push(Step::Clear(app));
    steps.push(Step::Create(macos));
    steps.push(Step::Create(resources));
    let built = entry(&entry(&target, "release"), EXECUTABLE);
    steps.push(Step::Copy { from: built, to: binary });
    // Local symbols only: the backtrace of a panic still names functions.
    steps.push(Step::Run(strip));
    steps.push(Step::Plist { template: entry(&packaging, "Info.plist.in"), to: list });
    steps.push(Step::Run(lint));
    assert(steps.deep_view() =~= layout_steps(root@, cargo@));
    steps
}

/// The steps that notarize the bundle.
fn notarize(app: &PathBuf, zip: &PathBuf) -> (r: Vec<Step>)
    ensures
        r.deep_view() == notarize_steps(app@, zip@),
{
    let staple = Call::new("xcrun").word("stapler").word("staple").path(app);
    assert(staple@.arguments =~= seq![arg("stapler"@), arg("staple"@), app@.text]);
    let assess = Call::new("spctl").word("--assess").word("--type").word("execute").word(
        "-vv",
    ).path(app);
    assert(assess@.arguments =~= seq![
        arg("--assess"@),
        arg("--type"@),
        arg("execute"@),
        arg("-vv"@),
        app@.text,
    ]);
    let mut steps: Vec<Step> = Vec::new();
    assert(steps.deep_view() =~= Seq::<StepView>::empty());
    push_step(&mut steps, Step::Notarize(zip.clone()));
    push_step(&mut steps, Step::Run(staple));
    push_steps(&mut steps, archive(app, zip));
    push_step(&mut steps, Step::Run(assess));
    assert(steps.deep_view() =~= notarize_steps(app@, zip@));
    steps
}

/// The steps that make the bundle the arguments ask for, in the workspace at
/// `root`, with the build tool `cargo`, for a `version` and an `arch`.
///
/// The target directory is named rather than inherited: a setting elsewhere
/// would put the fresh binary there and leave a stale one here to be
/// bundled.
pub fn bundle(
    platform: Platform,
    args: &[String],
    root: &PathBuf,
    cargo: &str,
    version: &str,
    arch: &str,
) -> (r: Result<Vec<Step>, String>)
    ensures
        match parsed(words_of(args@), no_options()) {
            _ if !(platform is MacOs) => r matches Err(reason) && reason@
                == "the app bundle is built on macOS"@,
            Err(error) => r matches Err(reason) && reason@ == error,
            Ok(options) => r matches Ok(steps) && steps.deep_view() == bundle_steps(
                options,
                root@,
                cargo@,
                version@,
                arch@,
            ),
        },
{
    match platform {
        Platform::MacOs => {},
        _ => {
            return Err("the app bundle is built on macOS".to_owned());
        },
    }
    let options = match parse(args) {
        Ok(options) => options,
        Err(reason) => {
            return Err(reason);
        },
    };
    let out = entry(&entry(root, "target"), "bundle");
    let app = entry(&out, APP);
    let resources = entry(&entry(&app, "Contents"), "Resources");
    let packaging = entry(&entry(root, "packaging"), "macos");
    let mut name = "disktree-".to_owned();
    name.append(version);
    name.append("-");
    name.append(arch);
    name.append("-macos.zip");
    assert(name@ =~= zip_name(version@, arch@));
    let zip = entry(&out, name.as_str());
    let mut steps = layout(root, cargo);
    push_steps(
        &mut steps,
        icon(&entry(&packaging, "AppIcon.svg"), &out, &entry(&resources, "AppIcon.icns")),
    );
    push_steps(&mut steps, sign(&app, options.identity.as_ref()));
    push_steps(&mut steps, archive(&app, &zip));
    if options.notarize {
        push_steps(&mut steps, notarize(&app, &zip));
    }
    push_step(&mut steps, Step::Report { app, zip });
    assert(steps.deep_view() =~= bundle_steps(options@, root@, cargo@, version@, arch@));
    Ok(steps)
}

/// What is said when a step on the disk fails with `error`; `None` for one
/// that speaks for itself.
pub fn step_failed(step: &Step, error: &str) -> (r: Option<String>)
    ensures
        match step@ {
            StepView::Clear(path) => r matches Some(reason) && reason@ == "cannot clear "@
                + text::shown(path.text) + ": "@ + error@,
            StepView::Create(path) => r matches Some(reason) && reason@ == "cannot create "@
                + text::shown(path.text) + ": "@ + error@,
            StepView::Copy { from, to } => r matches Some(reason) && reason@ == "cannot copy "@
                + text::shown(from.text) + " to "@ + text::shown(to.text) + ": "@ + error@,
            StepView::Replace(path) => r matches Some(reason) && reason@ == "cannot replace "@
                + text::shown(path.text) + ": "@ + error@,
            StepView::Plist { to, .. } => r matches Some(reason) && reason@ == "cannot write "@
                + text::shown(to.text) + ": "@ + error@,
            _ => r is None,
        },
{
    let mut reason = String::new();
    match step {
        Step::Clear(path) => {
            reason.append("cannot clear ");
            reason.append(path.display(Platform::MacOs).as_str());
        },
        Step::Create(path) => {
            reason.append("cannot create ");
            reason.append(path.display(Platform::MacOs).as_str());
        },
        Step::Copy { from, to } => {
            reason.append("cannot copy ");
            reason.append(from.display(Platform::MacOs).as_str());
            reason.append(" to ");
            reason.append(to.display(Platform::MacOs).as_str());
        },
        Step::Replace(path) => {
            reason.append("cannot replace ");
            reason.append(path.display(Platform::MacOs).as_str());
        },
        Step::Plist { template: _, to } => {
            reason.append("cannot write ");
            reason.append(to.display(Platform::MacOs).as_str());
        },
        _ => {
            return None;
        },
    }
    reason.append(": ");
    reason.append(error);
    proof {
        match step@ {
            StepView::Clear(path) => {
                assert(reason@ =~= "cannot clear "@ + text::shown(path.text) + ": "@ + error@);
            },
            StepView::Create(path) => {
                assert(reason@ =~= "cannot create "@ + text::shown(path.text) + ": "@ + error@);
            },
            StepView::Copy { from, to } => {
                assert(reason@ =~= "cannot copy "@ + text::shown(from.text) + " to "@ + text::shown(
                    to.text,
                ) + ": "@ + error@);
            },
            StepView::Replace(path) => {
                assert(reason@ =~= "cannot replace "@ + text::shown(path.text) + ": "@ + error@);
            },
            StepView::Plist { to, .. } => {
                assert(reason@ =~= "cannot write "@ + text::shown(to.text) + ": "@ + error@);
            },
            _ => {},
        }
    }
    Some(reason)
}

/// Without an identity the bundle is signed ad hoc, and it is never
/// submitted to Apple.
pub proof fn lemma_ad_hoc(args: Seq<Seq<char>>, app: PathView)
    ensures
        match parsed(args, no_options()) {
            Ok(options) => options.identity is None ==> {
                &&& !options.notarize
                &&& sign_steps(app, options.identity)[0] == StepView::Run(
                    call(
                        "codesign"@,
                        seq![arg("--force"@), arg("--sign"@), arg("-"@), app.text],
                    ),
                )
            },
            Err(_) => true,
        },
{
    lemma_notarized_is_signed(args, no_options());
}

} // verus!
