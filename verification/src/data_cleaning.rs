//! Normalization of raw movie rows into clean records.
//!
//! A raw row carries the title, the release year and the genre list as text,
//! and optional critic and audience scores. Cleaning discards rows that miss
//! a score or whose year does not start with four digits, splits the genre
//! text on commas, and precomputes the score gap (audience minus critic).
//!
//! Scores are fixed-point integers: `metacritic` is in hundredths of a point
//! on the raw 0-100 critic scale, and all other scores are in hundredths of
//! a point on the 0-10 scale. Normalizing the critic score to the 0-10 scale
//! therefore divides by ten.

use vstd::prelude::*;

verus! {

/// A raw movie row, as read from the tabular source.
#[allow(non_snake_case)]
pub struct Movie {
    pub title: String,
    /// Release year as text; only the first four characters are parsed.
    pub year: String,
    /// Comma-separated genre names.
    pub genre: String,
    /// Critic score in hundredths of a point on the 0-100 scale, if present.
    pub metacritic: Option<u16>,
    /// Audience score in hundredths of a point on the 0-10 scale, if present.
    pub imdbRating: Option<u16>,
}

/// Mathematical model of a raw movie row.
pub struct MovieView {
    pub title: Seq<char>,
    pub year: Seq<char>,
    pub genre: Seq<char>,
    pub metacritic: Option<u16>,
    pub imdb_rating: Option<u16>,
}

impl View for Movie {
    type V = MovieView;

    open spec fn view(&self) -> MovieView {
        MovieView {
            title: self.title@,
            year: self.year@,
            genre: self.genre@,
            metacritic: self.metacritic,
            imdb_rating: self.imdbRating,
        }
    }
}

/// A validated movie record. All scores are in hundredths of a point on the
/// 0-10 scale; `score_gap` is the audience score minus the normalized critic
/// score, precomputed once.
pub struct CleanMovie {
    pub title: String,
    pub year: u16,
    pub genres: Vec<String>,
    pub critic_score: u16,
    pub user_score: u16,
    pub score_gap: i32,
}

/// Mathematical model of a validated movie record.
pub struct CleanMovieView {
    pub title: Seq<char>,
    pub year: u16,
    pub genres: Seq<Seq<char>>,
    pub critic_score: u16,
    pub user_score: u16,
    pub score_gap: i32,
}

impl View for CleanMovie {
    type V = CleanMovieView;

    open spec fn view(&self) -> CleanMovieView {
        CleanMovieView {
            title: self.title@,
            year: self.year,
            genres: self.genres.deep_view(),
            critic_score: self.critic_score,
            user_score: self.user_score,
            score_gap: self.score_gap,
        }
    }
}

/// The models of a sequence of clean records.
pub open spec fn clean_views(v: Seq<CleanMovie>) -> Seq<CleanMovieView> {
    v.map_values(|c: CleanMovie| c@)
}

/// The models of a sequence of raw rows.
pub open spec fn movie_views(v: Seq<Movie>) -> Seq<MovieView> {
    v.map_values(|m: Movie| m@)
}

/// Whether `c` is a decimal digit.
pub open spec fn is_digit(c: char) -> bool {
    48 <= c as u32 <= 57
}

/// Numeric value of a decimal digit.
pub open spec fn digit_val(c: char) -> int {
    c as u32 - 48
}

/// The year encoded by the first four characters of `s`: defined exactly
/// when `s` has at least four characters and they are all decimal digits.
/// Characters after the fourth are ignored.
pub open spec fn parse_year_spec(s: Seq<char>) -> Option<u16> {
    if s.len() >= 4 && is_digit(s[0]) && is_digit(s[1]) && is_digit(s[2]) && is_digit(s[3]) {
        Some((digit_val(s[0]) * 1000 + digit_val(s[1]) * 100 + digit_val(s[2]) * 10 + digit_val(
            s[3])) as u16)
    } else {
        None
    }
}

/// Parse the first four characters of `s` as a year.
pub fn parse_year(s: &String) -> (r: Option<u16>)
    ensures
        r == parse_year_spec(s@),
{
    let st = s.as_str();
    if st.unicode_len() < 4 {
        return None;
    }
    let d0 = digit_of(st.get_char(0));
    let d1 = digit_of(st.get_char(1));
    let d2 = digit_of(st.get_char(2));
    let d3 = digit_of(st.get_char(3));
    match (d0, d1, d2, d3) {
        (Some(a), Some(b), Some(c), Some(d)) => Some(a * 1000 + b * 100 + c * 10 + d),
        _ => None,
    }
}

/// Numeric value of `c` if it is a decimal digit.
fn digit_of(c: char) -> (r: Option<u16>)
    ensures
        r is Some <==> is_digit(c),
        r is Some ==> r.unwrap() == digit_val(c) && r.unwrap() <= 9,
{
    let u = c as u32;
    if 48 <= u && u <= 57 {
        Some((u - 48) as u16)
    } else {
        None
    }
}

/// Whether `c` counts as whitespace when genre names are trimmed.
pub open spec fn is_ws(c: char) -> bool {
    c == ' ' || c == '\t' || c == '\r' || c == '\n'
}

/// `s` with leading whitespace removed.
pub open spec fn trim_start_spec(s: Seq<char>) -> Seq<char>
    decreases s.len(),
{
    if s.len() > 0 && is_ws(s[0]) {
        trim_start_spec(s.skip(1))
    } else {
        s
    }
}

/// `s` with trailing whitespace removed.
pub open spec fn trim_end_spec(s: Seq<char>) -> Seq<char>
    decreases s.len(),
{
    if s.len() > 0 && is_ws(s[s.len() - 1]) {
        trim_end_spec(s.drop_last())
    } else {
        s
    }
}

/// `s` with leading and trailing whitespace removed.
pub open spec fn trim_spec(s: Seq<char>) -> Seq<char> {
    trim_end_spec(trim_start_spec(s))
}

/// The pieces of `s` split at every comma, with `cur` the piece read so far:
/// splitting never drops a piece, so an empty text yields one empty piece.
pub open spec fn split_commas(s: Seq<char>, cur: Seq<char>) -> Seq<Seq<char>>
    decreases s.len(),
{
    if s.len() == 0 {
        seq![cur]
    } else if s[0] == ',' {
        seq![cur] + split_commas(s.skip(1), Seq::empty())
    } else {
        split_commas(s.skip(1), cur.push(s[0]))
    }
}

/// The genre names encoded by a comma-separated genre text: each piece
/// between commas, trimmed of surrounding whitespace.
pub open spec fn split_genres_spec(s: Seq<char>) -> Seq<Seq<char>> {
    split_commas(s, Seq::empty()).map_values(|p: Seq<char>| trim_spec(p))
}

/// Whether the character at position `i` of `st` is whitespace.
fn is_ws_at(st: &str, i: usize) -> (r: bool)
    requires
        i < st@.len(),
    ensures
        r == is_ws(st@[i as int]),
{
    let c = st.get_char(i);
    c == ' ' || c == '\t' || c == '\r' || c == '\n'
}

/// The substring `st[from..to]`, trimmed of surrounding whitespace.
fn trimmed_substring(st: &str, from: usize, to: usize) -> (r: String)
    requires
        from <= to <= st@.len(),
    ensures
        r@ == trim_spec(st@.subrange(from as int, to as int)),
{
    let mut a = from;
    while a < to && is_ws_at(st, a)
        invariant
            from <= a <= to <= st@.len(),
            trim_start_spec(st@.subrange(from as int, to as int)) == trim_start_spec(
                st@.subrange(a as int, to as int)),
        decreases to - a,
    {
        proof {
            assert(st@.subrange(a as int, to as int).skip(1) =~= st@.subrange(a + 1, to as int));
        }
        a += 1;
    }
    proof {
        assert(trim_start_spec(st@.subrange(a as int, to as int)) == st@.subrange(
            a as int, to as int));
    }
    let mut b = to;
    while a < b && is_ws_at(st, b - 1)
        invariant
            from <= a <= b <= to <= st@.len(),
            trim_start_spec(st@.subrange(from as int, to as int)) == st@.subrange(
                a as int, to as int),
            trim_end_spec(st@.subrange(a as int, to as int)) == trim_end_spec(st@.subrange(
                a as int, b as int)),
        decreases b - a,
    {
        proof {
            assert(st@.subrange(a as int, b as int).drop_last() =~= st@.subrange(
                a as int, b - 1));
        }
        b -= 1;
    }
    proof {
        assert(trim_end_spec(st@.subrange(a as int, b as int)) == st@.subrange(a as int, b as int));
    }
    let piece = st.substring_char(a, b);
    piece.to_owned()
}

/// Split a comma-separated genre text into trimmed genre names.
pub fn split_genres(s: &String) -> (r: Vec<String>)
    ensures
        r.deep_view() == split_genres_spec(s@),
{
    let st = s.as_str();
    let n = st.unicode_len();
    let mut pieces: Vec<String> = Vec::new();
    let ghost mut raws: Seq<Seq<char>> = Seq::empty();
    let mut start: usize = 0;
    let mut pos: usize = 0;
    proof {
        assert(s@.skip(0) =~= s@);
        assert(s@.subrange(0, 0) =~= Seq::<char>::empty());
        assert(raws + split_commas(s@, Seq::empty()) =~= split_commas(s@, Seq::empty()));
        assert(pieces.deep_view() =~= raws.map_values(|p: Seq<char>| trim_spec(p)));
    }
    while pos < n
        invariant
            start <= pos <= n,
            n == st@.len(),
            st@ == s@,
            split_commas(s@, Seq::empty()) == raws + split_commas(
                s@.skip(pos as int),
                s@.subrange(start as int, pos as int),
            ),
            pieces.deep_view() == raws.map_values(|p: Seq<char>| trim_spec(p)),
        decreases n - pos,
    {
        let c = st.get_char(pos);
        let ghost cur = s@.subrange(start as int, pos as int);
        proof {
            assert(s@.skip(pos as int)[0] == s@[pos as int]);
            assert(s@.skip(pos as int).skip(1) =~= s@.skip(pos + 1));
        }
        if c == ',' {
            let piece = trimmed_substring(st, start, pos);
            pieces.push(piece);
            proof {
                let f = |p: Seq<char>| trim_spec(p);
                assert(raws.push(cur).map_values(f) =~= raws.map_values(f).push(trim_spec(cur)));
                assert(pieces.deep_view() =~= raws.map_values(f).push(trim_spec(cur)));
                raws = raws.push(cur);
                assert(raws + split_commas(s@.skip(pos + 1), Seq::empty()) =~= split_commas(
                    s@, Seq::empty()));
                assert(s@.subrange(pos + 1, pos + 1) =~= Seq::<char>::empty());
            }
            start = pos + 1;
        } else {
            proof {
                assert(cur.push(s@[pos as int]) =~= s@.subrange(start as int, pos + 1));
            }
        }
        pos += 1;
    }
    let piece = trimmed_substring(st, start, n);
    pieces.push(piece);
    proof {
        let ghost cur = s@.subrange(start as int, n as int);
        assert(s@.skip(n as int) =~= Seq::<char>::empty());
        let f = |p: Seq<char>| trim_spec(p);
        assert(raws.push(cur).map_values(f) =~= raws.map_values(f).push(trim_spec(cur)));
        assert(pieces.deep_view() =~= raws.push(cur).map_values(f));
        assert(raws + seq![cur] =~= raws.push(cur));
        assert(split_commas(s@, Seq::empty()) =~= raws.push(cur));
    }
    pieces
}

/// The clean record derived from a raw row: defined exactly when both scores
/// are present and the year text starts with four digits. The critic score,
/// given on the 0-100 scale, is normalized to the 0-10 scale by dividing by
/// ten; the score gap is the audience score minus the normalized critic
/// score.
pub open spec fn clean_spec(m: MovieView) -> Option<CleanMovieView> {
    if m.metacritic is Some && m.imdb_rating is Some && parse_year_spec(m.year) is Some {
        let mc = m.metacritic.unwrap();
        let ur = m.imdb_rating.unwrap();
        Some(CleanMovieView {
            title: m.title,
            year: parse_year_spec(m.year).unwrap(),
            genres: split_genres_spec(m.genre),
            critic_score: (mc / 10) as u16,
            user_score: ur,
            score_gap: (ur - mc / 10) as i32,
        })
    } else {
        None
    }
}

/// Normalize one raw row, or discard it.
pub fn clean_record(m: &Movie) -> (r: Option<CleanMovie>)
    ensures
        r is Some <==> clean_spec(m@) is Some,
        r is Some ==> r.unwrap()@ == clean_spec(m@).unwrap(),
{
    let (mc, ur) = match (m.metacritic, m.imdbRating) {
        (Some(a), Some(b)) => (a, b),
        _ => {
            return None;
        },
    };
    let year = match parse_year(&m.year) {
        Some(y) => y,
        None => {
            return None;
        },
    };
    let genres = split_genres(&m.genre);
    let critic: u16 = mc / 10;
    let gap: i32 = ur as i32 - critic as i32;
    Some(
        CleanMovie {
            title: m.title.clone(),
            year,
            genres,
            critic_score: critic,
            user_score: ur,
            score_gap: gap,
        },
    )
}

/// The clean records of a sequence of raw rows, in input order, with the
/// discarded rows left out.
pub open spec fn clean_all(ms: Seq<MovieView>) -> Seq<CleanMovieView>
    decreases ms.len(),
{
    if ms.len() == 0 {
        Seq::empty()
    } else {
        clean_all(ms.drop_last()) + match clean_spec(ms.last()) {
            Some(c) => seq![c],
            None => Seq::empty(),
        }
    }
}

/// Normalize a list of raw rows, discarding rows that miss a score or whose
/// year is malformed.
pub fn clean_records(rows: &Vec<Movie>) -> (r: Vec<CleanMovie>)
    ensures
        clean_views(r@) == clean_all(movie_views(rows@)),
{
    let mut out: Vec<CleanMovie> = Vec::new();
    let mut i: usize = 0;
    proof {
        assert(movie_views(rows@).take(0) =~= Seq::<MovieView>::empty());
        assert(clean_views(out@) =~= Seq::<CleanMovieView>::empty());
    }
    while i < rows.len()
        invariant
            i <= rows.len(),
            clean_views(out@) == clean_all(movie_views(rows@).take(i as int)),
        decreases rows.len() - i,
    {
        let ghost prefix = movie_views(rows@).take(i as int);
        proof {
            assert(movie_views(rows@).take(i + 1).drop_last() =~= prefix);
            assert(movie_views(rows@).take(i + 1).last() == rows@[i as int]@);
        }
        if let Some(c) = clean_record(&rows[i]) {
            out.push(c);
            proof {
                assert(clean_views(out@) =~= clean_all(prefix).push(
                    clean_spec(rows@[i as int]@).unwrap()));
                assert(clean_all(prefix) + seq![clean_spec(rows@[i as int]@).unwrap()]
                    =~= clean_all(prefix).push(clean_spec(rows@[i as int]@).unwrap()));
            }
        } else {
            proof {
                assert(clean_all(prefix) + Seq::<CleanMovieView>::empty() =~= clean_all(prefix));
            }
        }
        i += 1;
    }
    proof {
        assert(movie_views(rows@).take(rows@.len() as int) =~= movie_views(rows@));
    }
    out
}

} // verus!
