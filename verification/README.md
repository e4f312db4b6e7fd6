# simple_unc

Simplifies Windows paths in the Win32 File Namespace form (`\\?\`), as
`fs::canonicalize` returns them on Windows, so that programs such as
PowerShell and `cmd.exe` can handle them:

| input | result |
| --- | --- |
| `\\?\C:\dir` | `C:\dir` |
| `\\?\UNC\server\share\x` (share mapped to `Z:`) | `\\server\share\x` |
| same, with `map_to_drive` | `Z:\x` |

The library (`src/`) is verified with Verus:

- `components`: the component grammar of Windows paths (prefixes, root,
  body components) and prefix stripping over it.
- `path_ext`: conversion of `\\?\UNC\...` to `\\...`.
- `verbatim_disk`: when `\\?\C:\...` can lose its `\\?\`.
- `volume`, `drive_path`: the sorted table of network drives and paths
  relative to a drive.
- `wide`: UTF-16 lengths and encodings.
- `simple_unc`, `display`: the `SimpleUnc` options and the simplification
  itself.

`app/` holds what needs the operating system: `canonicalize`, reading the
network drives through the Win32 API, the drive cache, and `fmt::Display`.
