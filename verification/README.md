# Lanmark

Notes in a vault of plain Markdown files, synced between devices in the local
network. This crate holds what the application decides and computes, each
function with a contract that Verus proves; `app/` is the program around it.

## Layout

`src/`, the verified library:

| Module | What it holds |
| --- | --- |
| `text`, `strmap`, `digest` | characters, an ordered map with text keys, hashes and base64 |
| `fs_ops`, `tree`, `colors` | paths and names in a vault, its tree, its trash, folder colours |
| `db` | search, recents and favourites, and how the index follows files |
| `settings`, `settings_cmd`, `vault`, `commands` | settings, configuration, what each command answers |
| `sync`, `round`, `exchange`, `phases` | manifests, versions, tombstones, and a whole sync round |
| `sync_server` | tokens, pairing codes, what a server does with a pull, a push, a deletion |
| `sync_client`, `pairing`, `discovery`, `lan_scan` | server profiles, pairing, finding devices |

The clock, the disk, the network and the database are outside: their answers
come in as arguments or through closures, and the contracts hold for each answer
they may give and say which calls are made.

`tests/` runs the library: whole rounds between devices in memory, and each
module on its own.

`app/` is a command line program: files, the SQLite index, HTTP, mDNS and the
JSON shapes of the library's types.

## What a reader may rely on

- In a round, and in each push, the version that loses stays as a visible copy.
  There is one exception: where this side wins a conflict and the server's
  version cannot be kept here, the round reports that as an error and pushes this
  side's version all the same.
- An entry that is renamed or moved is gone from its old place for other devices
  too, and is not taken for deleted at its new one.
- A deletion reaches the other side unless the file's content was changed at
  the same moment or after it.
- No path that the library joins leaves the vault, neither by its segments nor,
  as far as the disk was looked at, by a link.
- Ten wrong pairing codes in a row lock pairing for a minute.
- A scan of whole networks needs leave, and asks no more addresses than its cap.

The contracts say these things exactly, together with the public proof functions
named `law_*`. Where the order of outside calls matters (a copy before it is
written over, a request before it is asked about), the `requires` of a function
gives leave for a call only once what must come before it has happened; the spec
functions named `*_leave` hold these conditions.

## What is trusted

`text` and `digest` hold the few functions whose contracts are believed: adding
a character to a string, lower case, debug text and lossy decoding of the
standard library, SHA-256 and base64. Except for the first, their results are
named and not described, apart from short facts such as that decoding gives back
what was encoded.
