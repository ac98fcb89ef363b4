//! What the candidate window is told to do, and the candidates it shows.

use vstd::prelude::*;
use crate::text::{chars_equal, chars_of, push_all, string_from_chars};

verus! {

/// A candidate as the window shows it.
#[derive(Clone, Debug)]
pub struct CandidateView {
    pub text: String,
    pub subtext: String,
}

/// An instruction to the candidate window.
#[derive(Debug)]
pub enum WindowAction {
    Show,
    Hide,
    SetPosition { top: i32, left: i32, bottom: i32, right: i32 },
    SetSelection { index: i32 },
    SetCandidate { candidates: Vec<CandidateView> },
    SetInputMode(String),
}

/// A shown candidate as a value: text and subtext.
pub open spec fn view_model(v: CandidateView) -> (Seq<char>, Seq<char>) {
    (v.text@, v.subtext@)
}

/// The candidates to show for a request: its candidates with subtexts when
/// it has any, else its plain texts with empty subtexts.
pub open spec fn shown_candidates(texts: Seq<Seq<char>>, items: Seq<(Seq<char>, Seq<char>)>) -> Seq<
    (Seq<char>, Seq<char>),
> {
    if items.len() == 0 {
        texts.map_values(|t: Seq<char>| (t, Seq::<char>::empty()))
    } else {
        items
    }
}

/// The candidates to show for a request (see `shown_candidates`).
pub fn candidate_views(texts: Vec<String>, items: Vec<CandidateView>) -> (r: Vec<CandidateView>)
    ensures
        r@.map_values(|v: CandidateView| view_model(v)) == shown_candidates(
            texts@.map_values(|t: String| t@),
            items@.map_values(|v: CandidateView| view_model(v)),
        ),
{
    if items.len() > 0 {
        return items;
    }
    let ghost ts = texts@.map_values(|t: String| t@);
    let mut out: Vec<CandidateView> = Vec::new();
    let mut i: usize = 0;
    while i < texts.len()
        invariant
            ts == texts@.map_values(|t: String| t@),
            i <= texts@.len(),
            out@.map_values(|v: CandidateView| view_model(v)) == ts.take(i as int).map_values(
                |t: Seq<char>| (t, Seq::<char>::empty()),
            ),
        decreases texts@.len() - i,
    {
        let ghost before = out@;
        let view = CandidateView { text: texts[i].clone(), subtext: String::new() };
        assert(ts[i as int] == texts@[i as int]@);
        assert(view_model(view) == (ts[i as int], Seq::<char>::empty()));
        out.push(view);
        assert(out@.map_values(|v: CandidateView| view_model(v)) =~= before.map_values(
            |v: CandidateView| view_model(v),
        ).push(view_model(view)));
        assert(ts.take(i + 1) =~= ts.take(i as int).push(ts[i as int]));
        assert(out@.map_values(|v: CandidateView| view_model(v)) =~= ts.take(i + 1).map_values(
            |t: Seq<char>| (t, Seq::<char>::empty()),
        ));
        i += 1;
    }
    assert(ts.take(texts@.len() as int) =~= ts);
    out
}

/// The look of the candidate window.
#[derive(Clone, Debug)]
pub struct CandidateAppearance {
    pub custom_css_enabled: bool,
    pub custom_css: String,
    pub background_color: String,
    pub accent_color: String,
    pub text_color: String,
}

impl Default for CandidateAppearance {
    /// The built-in look: white background, blue accent, black text, no
    /// custom style sheet.
    fn default() -> (a: CandidateAppearance)
        ensures
            !a.custom_css_enabled,
            a.custom_css@.len() == 0,
            a.background_color@ == "#FFFFFF"@,
            a.accent_color@ == "#2CB5FF"@,
            a.text_color@ == "#000000"@,
    {
        CandidateAppearance {
            custom_css_enabled: false,
            custom_css: String::new(),
            background_color: "#FFFFFF".to_owned(),
            accent_color: "#2CB5FF".to_owned(),
            text_color: "#000000".to_owned(),
        }
    }
}

/// The style sheet that the appearance adds to the window: the custom
/// style sheet when it is on; else, when a color differs from the built-in
/// look, the colors as style variables (the selection background being the
/// accent color at one fifth opacity); else nothing.
pub open spec fn spec_theme_style(a: CandidateAppearance) -> Seq<char> {
    if a.custom_css_enabled {
        "<style>"@ + a.custom_css@ + "</style>"@
    } else if a.background_color@ != "#FFFFFF"@ || a.accent_color@ != "#2CB5FF"@ || a.text_color@
        != "#000000"@ {
        "<style>:root{--bg:"@ + a.background_color@ + ";--accent:"@ + a.accent_color@ + ";--fg:"@
            + a.text_color@ + ";--sel-bg:"@ + a.accent_color@ + "33"@
            + ";}body{color:var(--fg);}main{background-color:var(--bg);border-color:color-mix(in srgb,var(--fg) 15%,transparent);}li[data-selected]{background-color:var(--sel-bg);outline-color:var(--accent);}</style>"@
    } else {
        Seq::empty()
    }
}

fn then_str(mut v: Vec<char>, s: &str) -> (r: Vec<char>)
    ensures
        r@ == v@ + s@,
{
    let tail = chars_of(s);
    push_all(&mut v, tail.as_slice());
    v
}

fn same_text(a: &String, b: &str) -> (r: bool)
    ensures
        r == (a@ == b@),
{
    let x = chars_of(a.as_str());
    let y = chars_of(b);
    chars_equal(x.as_slice(), y.as_slice())
}

/// The style sheet of the appearance (see `spec_theme_style`).
pub fn theme_style(a: &CandidateAppearance) -> (r: String)
    ensures
        r@ == spec_theme_style(*a),
{
    if a.custom_css_enabled {
        let mut out = chars_of("<style>");
        out = then_str(out, a.custom_css.as_str());
        out = then_str(out, "</style>");
        return string_from_chars(out.as_slice());
    }
    let is_custom = !same_text(&a.background_color, "#FFFFFF") || !same_text(&a.accent_color, "#2CB5FF")
        || !same_text(&a.text_color, "#000000");
    if !is_custom {
        return String::new();
    }
    let mut out = chars_of("<style>:root{--bg:");
    out = then_str(out, a.background_color.as_str());
    out = then_str(out, ";--accent:");
    out = then_str(out, a.accent_color.as_str());
    out = then_str(out, ";--fg:");
    out = then_str(out, a.text_color.as_str());
    out = then_str(out, ";--sel-bg:");
    out = then_str(out, a.accent_color.as_str());
    out = then_str(out, "33");
    out = then_str(
        out,
        ";}body{color:var(--fg);}main{background-color:var(--bg);border-color:color-mix(in srgb,var(--fg) 15%,transparent);}li[data-selected]{background-color:var(--sel-bg);outline-color:var(--accent);}</style>",
    );
    string_from_chars(out.as_slice())
}

/// The page of the candidate window: the built-in page with the
/// appearance's style sheet after the built-in one.
pub fn build_candidate_html(a: &CandidateAppearance) -> (r: String)
    ensures
        r@ == CANDIDATE_HTML_HEAD@ + spec_theme_style(*a) + CANDIDATE_HTML_TAIL@,
{
    let style = theme_style(a);
    let mut out = chars_of(CANDIDATE_HTML_HEAD);
    out = then_str(out, style.as_str());
    out = then_str(out, CANDIDATE_HTML_TAIL);
    string_from_chars(out.as_slice())
}

/// The start of the candidate window's page, up to its built-in style sheet.
pub const CANDIDATE_HTML_HEAD: &'static str = r##"
        <html>
            <head>
                <style>
                    body, html {
                        overscroll-behavior: none;
                    }
                    body {
                        margin: 0;
                        padding: 7px;
                        filter: drop-shadow(3px 3px 3px rgba(0, 0, 0, 0.1));
                    }
                    main {
                        width: 100%;
                        height: 100%;
                        padding: 8px;
                        border: 1px solid #E4E4E4;
                        border-radius: 10px;
                        background-color: #FFFFFF;
                        box-sizing: border-box;
                        display: flex;
                        flex-direction: column;
                    }
                    ol {
                        margin: 0;
                        padding: 0;
                        flex: 1;
                        overflow-y: auto;
                        scroll-snap-type: y proximity;
                        list-style-position: inside;
                        list-style-type: none;
                        user-select: none;
                        cursor: pointer;

                        &::-webkit-scrollbar {
                            width: 5px;
                        }

                        &::-webkit-scrollbar-thumb {
                            background-color: #BCBCBC;
                            border-radius: 10px;
                        }
                    }
                    li {
                        padding: 0.5rem;
                        font-size: 0.9rem;
                        display: flex;
                        align-items: center;
                        gap: 0.5rem;
                        scroll-snap-align: start;

                        &::before {
                            content: attr(data-shortcut);
                            color: #636363;
                            font-weight: bold;
                            font-size: 0.75rem;
                            margin: 0 0.75rem 0 2;
                            width: 0.75rem;
                        }

                        &[data-selected] {
                            background-color: #D4F0FF;
                            border-radius: 3px;
                            margin-right: 5px;
                            outline: 1px solid #2CB5FF;
                            outline-offset: -1px;
                        }
                    }
                    .candidate-text {
                        flex: 1;
                        min-width: 0;
                        overflow: hidden;
                        text-overflow: ellipsis;
                        white-space: nowrap;
                    }
                    .candidate-subtext {
                        color: #757575;
                        font-size: 0.78rem;
                        min-width: 0;
                        overflow: hidden;
                        text-overflow: ellipsis;
                        white-space: nowrap;
                    }
                    footer {
                        display: flex;
                        justify-content: space-between;
                        align-items: center;
                        padding: 8 10 5 10;
                        border-top: 1px solid #E4E4E4;
                        font-size: 0.8rem;
                        user-select: none;
                    }

                    @media (prefers-color-scheme: dark) {
                        body {
                            color: #FFFFFF;
                        }
                        main {
                            border: 1px solid #424242;
                            background-color: #1E1E1E;
                        }
                        ol::-webkit-scrollbar-thumb {
                            background-color: #757575;
                        }
                        li {
                            color: #E0E0E0;

                            &::before {
                                color: #BDBDBD;
                            }

                            &[data-selected] {
                                background-color: #3949AB;
                                outline: 1px solid #5C6BC0;
                            }
                        }
                        .candidate-subtext {
                            color: #BDBDBD;
                        }

                        footer {
                            border-top: 1px solid #424242;
                        }
                    }
                </style>"##;

/// The rest of the candidate window's page: its script and markup.
pub const CANDIDATE_HTML_TAIL: &'static str = r##"
                <script>
                    function updateCandidates(candidates) {
                        const candidateList = document.getElementById('candidate-list');

                        const existingItems = Array.from(candidateList.children);

                        candidates.forEach((candidate, index) => {
                            const item = typeof candidate === 'string' ? { text: candidate, subtext: '' } : candidate;
                            const shortcut = index < 9 ? String(index + 1) : (index === 9 ? '0' : '');
                            if (existingItems[index]) {
                                existingItems[index].dataset.shortcut = shortcut;
                                existingItems[index].querySelector('.candidate-text').textContent = item.text;
                                existingItems[index].querySelector('.candidate-subtext').textContent = item.subtext || '';
                            } else {
                                const li = document.createElement('li');
                                li.dataset.shortcut = shortcut;
                                const text = document.createElement('span');
                                text.className = 'candidate-text';
                                text.textContent = item.text;
                                const subtext = document.createElement('span');
                                subtext.className = 'candidate-subtext';
                                subtext.textContent = item.subtext || '';
                                li.appendChild(text);
                                li.appendChild(subtext);
                                candidateList.appendChild(li);
                            }
                        });

                        while (existingItems.length > candidates.length) {
                            candidateList.removeChild(existingItems.pop());
                        }
                    }

                    function updateSelection(index) {
                        const candidateList = document.getElementById('candidate-list');
                        if (!candidateList.children.length || !candidateList.children[index]) {
                            return;
                        }
                        const selected = candidateList.querySelector('[data-selected]');
                        if (selected) {
                            selected.removeAttribute('data-selected');
                        }

                        candidateList.children[index].setAttribute('data-selected', '');

                        const itemHeight = candidateList.children[0].offsetHeight;

                        const groupSize = 5;
                        const groupIndex = Math.floor(index / groupSize);
                        const scrollToIndex = groupIndex * groupSize;

                        if (index === scrollToIndex || !isElementInView(candidateList.children[index], candidateList)) {
                            candidateList.children[scrollToIndex].scrollIntoView({ behavior: "instant", block: "start", inline: "start" });
                        }
                    }

                    function isElementInView(element, container) {
                        const containerRect = container.getBoundingClientRect();
                        const elementRect = element.getBoundingClientRect();

                        return (
                            elementRect.top >= containerRect.top &&
                            elementRect.bottom <= containerRect.bottom
                        );
                    }

                    function adjustWindowSize() {
                        const candidateList = document.getElementById('candidate-list');

                        candidateList.innerHTML = '';

                        for (let i = 0; i < 5; i++) {
                            const li = document.createElement('li');
                            li.textContent = `Item ${i+1}`;
                            candidateList.appendChild(li);
                        }

                        const footer = document.querySelector('footer');
                        const main = document.querySelector('main');
                        const body = document.body;

                        const itemHeight = candidateList.children[0].offsetHeight;
                        const candidateListHeight = itemHeight * 5;
                        const footerHeight = footer.offsetHeight;
                        const mainPadding = parseInt(window.getComputedStyle(main).paddingTop) +
                                           parseInt(window.getComputedStyle(main).paddingBottom);
                        const bodyPadding = parseInt(window.getComputedStyle(body).paddingTop) +
                                          parseInt(window.getComputedStyle(body).paddingBottom);

                        const totalHeight = candidateListHeight + footerHeight + mainPadding + bodyPadding;

                        candidateList.innerHTML = '';

                        window.ipc.postMessage(JSON.stringify({
                            type: 'resize',
                            height: totalHeight
                        }));
                    }

                    window.addEventListener('DOMContentLoaded', () => {
                        setTimeout(adjustWindowSize, 50);
                    });
                </script>
            </head>
            <body style="margin: 0;">
                <main>
                    <ol id="candidate-list">
                    </ol>
                    <footer>
                        <svg width="20" height="14" viewBox="0 0 22 16" fill="none" xmlns="http://www.w3.org/2000/svg">
                            <path d="M3.5 8C4.59202 9.04403 7.54398 10.3978 13.5068 9.93754M1.25349 5.39919C2.77722 0.413397 8.08911 0.79692 10.9673 1.24436C14.2687 1.71311 20.8969 3.82675 20.9985 8.53129C21.1255 14.412 13.1894 15.3069 10.0784 14.9233C6.96748 14.5398 -0.46071 13.0696 1.25349 5.39919Z" stroke="#838384" stroke-width="1.5" stroke-linecap="round"/>
                        </svg>
                    </footer>
                </main>
            </body>
        </html>"##;

} // verus!
