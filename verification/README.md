# oggify_csv

Spotify identifiers and the naming rules of a tool that downloads CSV
playlists as Ogg Vorbis files, verified with Verus.

- `src/digits.rs`: positional numerals (digits of a base, their values) and
  the facts that make written and read forms agree.
- `src/spotify_id.rs`: `SpotifyId` in base 16, base 62 and 16 big-endian
  bytes (through `byteorder`), `FileId` in hexadecimal, with round-trip laws.
- `src/naming.rs`: sanitizing and escaping names, cutting text to a number of
  characters, and the file name of a track.
- `src/playlist.rs`: the columns of a playlist row, the release year (through
  `dateparser`), the track id in a track URI (through `regex`), the bit rate
  to download and the audio kept of a decrypted track.
- `src/walk.rs`: the walk through a folder tree that collects its files.
- `src/text.rs`: building strings and facts about UTF-8.
- `app/`: the program around the library: file system, CSV and M3U files,
  logging and the Spotify session.

## Track file names

A track is saved as
`{artist}-{album}({year})-D{disc:0>2}-T{track:0>2}-{name}.ogg`, its
characters cleaned for the file system. Where that name, with the folder
and a separator before it, would be longer than 240 UTF-8 bytes
(`MAX_PATH_LEN`), the track gets the shorter `{artist}-{name}.ogg`; an
artist list that still does not fit is cut at its last comma in reach and
marked `,etc.`, or cut at the limit and marked `...`. This rule replaces an
older one (a 140-character limit and `{artist} - {track name}.ogg`). A file
found under the legacy name, the full name with the year `1666`, is renamed
to the current name rather than fetched again.
